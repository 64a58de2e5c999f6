//! Stamps, framing, rebroadcast helpers, and the buffer's error taxonomy.

use tf_buffer::plan::StepValue;
use tf_buffer::time::{duration_to_stamp, stamp_to_duration, to_stamp};
use tf_buffer::{
    get_message_data_with_header, tf2tf, Duration, Header, Quaternion, TfBuffer, TfError,
    TfIndividualTransformChain, Time, Transform, TransformStamped, Vector3,
};

fn bits(v: f64) -> u64 {
    v.to_bits()
}

fn make_tfs(
    parent: &str,
    child: &str,
    secs: u32,
    nsecs: u32,
    x: f64,
    y: f64,
    z: f64,
) -> TransformStamped {
    TransformStamped {
        header: Header {
            seq: 1,
            stamp: Time { secs, nsecs },
            frame_id: parent.to_string(),
        },
        child_frame_id: child.to_string(),
        transform: Transform {
            translation: Vector3 { x: bits(x), y: bits(y), z: bits(z) },
            rotation: Quaternion { x: bits(0.0), y: bits(0.0), z: bits(0.0), w: bits(1.0) },
        },
    }
}

#[test]
fn test_message_data_header() {
    assert_eq!(get_message_data_with_header(&[]), vec![0u8, 0, 0, 0]);
    assert_eq!(get_message_data_with_header(&[1, 2, 3]), vec![3u8, 0, 0, 0, 1, 2, 3]);
    let body = vec![7u8; 300];
    let framed = get_message_data_with_header(&body);
    assert_eq!(&framed[0..4], &[44u8, 1, 0, 0]);
    assert_eq!(&framed[4..], &body[..]);
}

#[test]
fn test_time_conversions() {
    let stamp = to_stamp(1, 500);
    assert_eq!(stamp, Time { secs: 1, nsecs: 500 });
    assert_eq!(stamp_to_duration(&stamp).nanos, 1_000_000_500);

    // un-normalized nanoseconds carry over into whole seconds
    let odd = Time { secs: 1, nsecs: 1_500_000_000 };
    let d = stamp_to_duration(&odd);
    assert_eq!(d.nanos, 2_500_000_000);
    assert_eq!(duration_to_stamp(d), Time { secs: 2, nsecs: 500_000_000 });

    assert_eq!(Duration::new(1, 0).unwrap().nanos, 1_000_000_000);
    assert_eq!(Duration::new(-1, 500_000_000).unwrap().nanos, -500_000_000);
    assert!(Duration::new(i64::MAX, 0).is_none());
    assert!(Duration::new(0, 0).unwrap().is_zero());
    assert!(!Duration::new(0, 1).unwrap().is_zero());
}

#[test]
fn test_tf2tf_zeroing() {
    let mut tfs = make_tfs("lookup_parent", "lookup_child", 9, 10, 1.0, 2.0, 3.0);
    tfs.transform.rotation = Quaternion {
        x: bits(0.1),
        y: bits(0.2),
        z: bits(0.3),
        w: bits(0.9),
    };
    let out = tf2tf(tfs, "broadcast_parent", "broadcast_child", (true, false, true), true);
    assert_eq!(out.header.frame_id, "broadcast_parent");
    assert_eq!(out.child_frame_id, "broadcast_child");
    assert_eq!(out.header.stamp, Time { secs: 9, nsecs: 10 });
    assert_eq!(f64::from_bits(out.transform.translation.x), 0.0);
    assert_eq!(f64::from_bits(out.transform.translation.y), 2.0);
    assert_eq!(f64::from_bits(out.transform.translation.z), 0.0);
    assert_eq!(f64::from_bits(out.transform.rotation.x), 0.0);
    assert_eq!(f64::from_bits(out.transform.rotation.y), 0.0);
    assert_eq!(f64::from_bits(out.transform.rotation.z), 0.0);
    assert_eq!(f64::from_bits(out.transform.rotation.w), 1.0);

    let tfs = make_tfs("a", "b", 0, 0, 4.0, 5.0, 6.0);
    let kept = tf2tf(tfs, "p", "c", (false, false, false), false);
    assert_eq!(f64::from_bits(kept.transform.translation.x), 4.0);
    assert_eq!(f64::from_bits(kept.transform.translation.y), 5.0);
    assert_eq!(f64::from_bits(kept.transform.translation.z), 6.0);
    assert_eq!(f64::from_bits(kept.transform.rotation.w), 1.0);
}

#[test]
fn test_lookup_in_past_and_future() {
    let mut buffer = TfBuffer::new_with_duration(Duration::new(100, 0).unwrap());
    for secs in [1u32, 2, 3] {
        let tfs = make_tfs("a", "b", secs, 0, secs as f64, 0.0, 0.0);
        assert!(buffer.add_transform(&tfs, false).is_ok());
    }

    let early = Time { secs: 0, nsecs: 500_000_000 };
    match buffer.lookup_transform("a", "b", Some(early)) {
        Err(TfError::AttemptedLookupInPast(node, first, at)) => {
            assert_eq!(node.parent, "a");
            assert_eq!(node.child, "b");
            assert_eq!(first, to_stamp(1, 0));
            assert_eq!(at, early);
        }
        other => panic!("{:?}", other),
    }

    let late = Time { secs: 3, nsecs: 500_000_000 };
    match buffer.lookup_transform("a", "b", Some(late)) {
        Err(TfError::AttemptedLookupInFuture(node, last, at)) => {
            assert_eq!(node.parent, "a");
            assert_eq!(node.child, "b");
            assert_eq!(last, to_stamp(3, 0));
            assert_eq!(at, late);
        }
        other => panic!("{:?}", other),
    }
}

#[test]
fn test_retention_window() {
    let mut buffer = TfBuffer::new_with_duration(Duration::new(1, 0).unwrap());
    for secs in [1u32, 2, 3] {
        let tfs = make_tfs("a", "b", secs, 0, 0.0, 0.0, 0.0);
        assert!(buffer.add_transform(&tfs, false).is_ok());
    }
    let stamps = buffer.get_edge_chain("a", "b").unwrap().stamps();
    assert_eq!(stamps, vec![to_stamp(2, 0), to_stamp(3, 0)]);
}

#[test]
fn test_static_kind_conflict() {
    let mut buffer = TfBuffer::new();
    let tfs = make_tfs("a", "b", 1, 0, 0.0, 0.0, 0.0);
    assert!(buffer.add_transform(&tfs, true).is_ok());
    assert_eq!(buffer.get_edge_chain("a", "b").unwrap().transform_chain.len(), 1);

    // the edge's kind was pinned static on first insert
    match buffer.add_transform(&tfs, false) {
        Err(TfError::CouldNotFindTransform(parent, child, _detail)) => {
            assert_eq!(parent, "a");
            assert_eq!(child, "b");
        }
        other => panic!("{:?}", other),
    }
    assert_eq!(buffer.get_edge_chain("a", "b").unwrap().transform_chain.len(), 1);
}

#[test]
fn test_disconnected_trees() {
    let mut buffer = TfBuffer::new();
    assert!(buffer.add_transform(&make_tfs("a", "b", 1, 0, 1.0, 0.0, 0.0), true).is_ok());
    assert!(buffer.add_transform(&make_tfs("c", "d", 1, 0, 1.0, 0.0, 0.0), true).is_ok());
    match buffer.lookup_transform("b", "d", None) {
        Err(TfError::CouldNotFindTransform(from, to, _detail)) => {
            assert_eq!(from, "b");
            assert_eq!(to, "d");
        }
        other => panic!("{:?}", other),
    }
}

#[test]
fn test_loop_detection() {
    let mut buffer = TfBuffer::new();
    // a hangs under b, and b hangs under a: single-parent holds for each
    // child, but any walk to the root revisits a frame.
    assert!(buffer.add_transform(&make_tfs("b", "a", 1, 0, 1.0, 0.0, 0.0), true).is_ok());
    assert!(buffer.add_transform(&make_tfs("a", "b", 1, 0, 1.0, 0.0, 0.0), true).is_ok());
    match buffer.lookup_transform("a", "b", None) {
        Err(TfError::LoopDetected(frame, snapshot)) => {
            assert_eq!(frame, "a");
            assert_eq!(snapshot.len(), 2);
        }
        other => panic!("{:?}", other),
    }
}

#[test]
fn test_get_root_and_children() {
    let mut buffer = TfBuffer::new();
    assert!(matches!(buffer.get_root(), Err(TfError::EmptyTree)));

    assert!(buffer.add_transform(&make_tfs("world", "base", 1, 0, 0.0, 0.0, 0.0), true).is_ok());
    assert!(buffer.add_transform(&make_tfs("base", "cam", 1, 0, 0.0, 0.0, 0.0), true).is_ok());
    assert!(buffer.add_transform(&make_tfs("base", "lidar", 1, 0, 0.0, 0.0, 0.0), true).is_ok());
    assert_eq!(buffer.get_root().unwrap(), "world");

    let p2c = buffer.get_parent_to_children();
    assert_eq!(p2c.len(), 2);
    assert_eq!(p2c[0].0, "world");
    assert_eq!(p2c[0].1, vec!["base".to_string()]);
    assert_eq!(p2c[1].0, "base");
    assert_eq!(p2c[1].1, vec!["cam".to_string(), "lidar".to_string()]);
}

#[test]
fn test_most_recent_stamp_selection() {
    let mut buffer = TfBuffer::new_with_duration(Duration::new(100, 0).unwrap());
    // dynamic hop a->b has data up to 5s, dynamic hop a->c up to 3s
    for secs in [1u32, 5] {
        assert!(buffer.add_transform(&make_tfs("a", "b", secs, 0, 0.0, 0.0, 0.0), false).is_ok());
    }
    for secs in [1u32, 3] {
        assert!(buffer.add_transform(&make_tfs("a", "c", secs, 0, 0.0, 0.0, 0.0), false).is_ok());
    }
    // the most recent coherent stamp across the chain b -> a -> c is 3s
    let plan = buffer.lookup_transform("b", "c", None).unwrap();
    assert_eq!(plan.stamp, Time { secs: 3, nsecs: 0 });

    // a purely static chain without a stamp resolves at stamp zero
    let mut stat = TfBuffer::new();
    assert!(stat.add_transform(&make_tfs("a", "b", 7, 0, 0.0, 0.0, 0.0), true).is_ok());
    let plan = stat.lookup_transform("a", "b", None).unwrap();
    assert_eq!(plan.stamp, Time { secs: 0, nsecs: 0 });
}

#[test]
fn test_blend_weights() {
    let mut buffer = TfBuffer::new_with_duration(Duration::new(100, 0).unwrap());
    assert!(buffer.add_transform(&make_tfs("a", "b", 1, 0, 0.0, 0.0, 0.0), false).is_ok());
    assert!(buffer.add_transform(&make_tfs("a", "b", 3, 0, 2.0, 0.0, 0.0), false).is_ok());

    // midway between the samples: the pair comes back with its exact
    // integer weight
    let plan = buffer.lookup_transform("a", "b", Some(Time { secs: 2, nsecs: 0 })).unwrap();
    assert_eq!(plan.steps.len(), 1);
    match &plan.steps[0].value {
        StepValue::Blend { first, second, num, den } => {
            assert_eq!(f64::from_bits(first.translation.x), 0.0);
            assert_eq!(f64::from_bits(second.translation.x), 2.0);
            assert_eq!(*num, 1_000_000_000);
            assert_eq!(*den, 2_000_000_000);
        }
        other => panic!("{:?}", other),
    }

    // an exact sample comes back exactly
    let plan = buffer.lookup_transform("a", "b", Some(Time { secs: 1, nsecs: 0 })).unwrap();
    assert_eq!(plan.steps.len(), 1);
    match &plan.steps[0].value {
        StepValue::Exact(t) => assert_eq!(f64::from_bits(t.translation.x), 0.0),
        other => panic!("{:?}", other),
    }

    // equal bracketing payloads collapse to the payload itself
    let mut same = TfBuffer::new_with_duration(Duration::new(100, 0).unwrap());
    assert!(same.add_transform(&make_tfs("a", "b", 1, 0, 4.0, 0.0, 0.0), false).is_ok());
    assert!(same.add_transform(&make_tfs("a", "b", 3, 0, 4.0, 0.0, 0.0), false).is_ok());
    let plan = same.lookup_transform("a", "b", Some(Time { secs: 2, nsecs: 0 })).unwrap();
    match &plan.steps[0].value {
        StepValue::Exact(t) => assert_eq!(f64::from_bits(t.translation.x), 4.0),
        other => panic!("{:?}", other),
    }
}

#[test]
fn test_batch_ingest() {
    let mut buffer = TfBuffer::new();
    let batch = tf_buffer::TFMessage {
        transforms: vec![
            make_tfs("world", "base", 1, 0, 0.0, 0.0, 0.0),
            make_tfs("base", "cam", 1, 0, 0.5, 0.0, 0.0),
        ],
    };
    assert!(buffer.handle_incoming_transforms(batch, true).is_ok());
    assert!(buffer.get_edge_chain("world", "base").is_some());
    assert!(buffer.get_edge_chain("base", "cam").is_some());

    // a batch that changes a parent mid-way reports the failure
    let bad = tf_buffer::TFMessage {
        transforms: vec![make_tfs("other", "cam", 2, 0, 0.0, 0.0, 0.0)],
    };
    assert!(matches!(
        buffer.handle_incoming_transforms(bad, true),
        Err(TfError::ChangingParent(_, _, _))
    ));

    // the listener-style batch entry point collects errors and carries on
    let msgs = vec![
        (
            tf_buffer::TFMessage { transforms: vec![make_tfs("other", "cam", 2, 0, 0.0, 0.0, 0.0)] },
            true,
        ),
        (
            tf_buffer::TFMessage { transforms: vec![make_tfs("base", "imu", 2, 0, 0.0, 0.0, 0.0)] },
            true,
        ),
    ];
    let errs = buffer.handle_message_batch(msgs);
    assert_eq!(errs.len(), 1);
    assert!(buffer.get_edge_chain("base", "imu").is_some());
}

#[test]
fn test_empty_chain_query() {
    let chain = TfIndividualTransformChain::new(
        "a".to_string(),
        "b".to_string(),
        false,
        Duration::new(10, 0).unwrap(),
    );
    // a history that never received a sample answers with a tagged error
    match chain.get_closest_transform(Some(Time { secs: 1, nsecs: 0 })) {
        Err(TfError::CouldNotFindTransform(parent, child, _detail)) => {
            assert_eq!(parent, "a");
            assert_eq!(child, "b");
        }
        other => panic!("{:?}", other),
    }
    match chain.get_closest_transform(None) {
        Err(TfError::CouldNotFindTransform(_, _, _)) => {}
        other => panic!("{:?}", other),
    }
}
