//! Message-shaped data types.
//!
//! Every real-valued component (translations, quaternions) is carried as the
//! `u64` bit pattern of an IEEE-754 double, element order `(x, y, z, w)` for
//! rotations. The buffer never does arithmetic on these payloads; it stores,
//! selects and arranges them, and callers turn bit patterns back into doubles
//! when they evaluate a lookup.

use crate::time::Time;
use vstd::prelude::*;

verus! {

/// Bit pattern of the double `1.0`; with all-zero companions it forms the
/// identity rotation `(0, 0, 0, 1)`.
pub const ONE_BITS: u64 = 0x3FF0_0000_0000_0000;

/// A three-component translation, each component the bit pattern of a double.
#[derive(Clone, Copy, Debug, PartialEq, Eq, Structural)]
pub struct Vector3 {
    pub x: u64,
    pub y: u64,
    pub z: u64,
}

/// A rotation quaternion in `(x, y, z, w)` order, each component the bit
/// pattern of a double.
#[derive(Clone, Copy, Debug, PartialEq, Eq, Structural)]
pub struct Quaternion {
    pub x: u64,
    pub y: u64,
    pub z: u64,
    pub w: u64,
}

/// A rigid transform: translation plus rotation.
#[derive(Clone, Copy, Debug, PartialEq, Eq, Structural)]
pub struct Transform {
    pub translation: Vector3,
    pub rotation: Quaternion,
}

/// Stamp, sequence number and the parent frame a message is expressed in.
#[derive(Clone, Debug)]
pub struct Header {
    pub seq: u32,
    pub stamp: Time,
    pub frame_id: String,
}

/// One stamped parent->child transform.
#[derive(Clone, Debug)]
pub struct TransformStamped {
    pub header: Header,
    pub child_frame_id: String,
    pub transform: Transform,
}

/// A batch of stamped transforms, as delivered by one inbound message.
#[derive(Clone, Debug)]
pub struct TFMessage {
    pub transforms: Vec<TransformStamped>,
}

impl Transform {
    /// The identity transform: zero translation, unit rotation `(0,0,0,1)`.
    pub open spec fn spec_identity() -> Transform {
        Transform {
            translation: Vector3 { x: 0, y: 0, z: 0 },
            rotation: Quaternion { x: 0, y: 0, z: 0, w: ONE_BITS },
        }
    }

    /// Build the identity transform.
    pub fn identity() -> (r: Transform)
        ensures
            r == Transform::spec_identity(),
    {
        Transform {
            translation: Vector3 { x: 0, y: 0, z: 0 },
            rotation: Quaternion { x: 0, y: 0, z: 0, w: ONE_BITS },
        }
    }
}

impl Default for Vector3 {
    /// All components are the bit pattern of `0.0`.
    fn default() -> (r: Vector3)
        ensures
            r == (Vector3 { x: 0u64, y: 0u64, z: 0u64 }),
    {
        Vector3 { x: 0, y: 0, z: 0 }
    }
}

impl Default for Quaternion {
    /// All components zero, matching a field-wise default of the wire shape.
    fn default() -> (r: Quaternion)
        ensures
            r == (Quaternion { x: 0u64, y: 0u64, z: 0u64, w: 0u64 }),
    {
        Quaternion { x: 0, y: 0, z: 0, w: 0 }
    }
}

impl Default for Transform {
    /// Field-wise zero transform (note: not the identity rotation).
    fn default() -> (r: Transform)
        ensures
            r.translation == (Vector3 { x: 0u64, y: 0u64, z: 0u64 }),
            r.rotation == (Quaternion { x: 0u64, y: 0u64, z: 0u64, w: 0u64 }),
    {
        Transform {
            translation: Vector3 { x: 0, y: 0, z: 0 },
            rotation: Quaternion { x: 0, y: 0, z: 0, w: 0 },
        }
    }
}

impl Default for Header {
    /// Zero stamp and sequence number, empty frame name.
    fn default() -> (r: Header)
        ensures
            r.seq == 0,
            r.stamp.secs == 0,
            r.stamp.nsecs == 0,
            r.frame_id@ == Seq::<char>::empty(),
    {
        Header { seq: 0, stamp: Time { secs: 0, nsecs: 0 }, frame_id: String::new() }
    }
}

impl Default for TransformStamped {
    /// Field-wise default of all components.
    fn default() -> (r: TransformStamped)
        ensures
            r.header.seq == 0,
            r.header.stamp.secs == 0,
            r.header.stamp.nsecs == 0,
            r.header.frame_id@ == Seq::<char>::empty(),
            r.child_frame_id@ == Seq::<char>::empty(),
            r.transform == transform_default_spec(),
    {
        TransformStamped {
            header: Header { seq: 0, stamp: Time { secs: 0, nsecs: 0 }, frame_id: String::new() },
            child_frame_id: String::new(),
            transform: Transform {
                translation: Vector3 { x: 0, y: 0, z: 0 },
                rotation: Quaternion { x: 0, y: 0, z: 0, w: 0 },
            },
        }
    }
}

impl Default for TFMessage {
    /// An empty batch.
    fn default() -> (r: TFMessage)
        ensures
            r.transforms@ == Seq::<TransformStamped>::empty(),
    {
        TFMessage { transforms: Vec::new() }
    }
}

/// The zero transform that `Transform::default` returns.
pub open spec fn transform_default_spec() -> Transform {
    Transform {
        translation: Vector3 { x: 0, y: 0, z: 0 },
        rotation: Quaternion { x: 0, y: 0, z: 0, w: 0 },
    }
}

} // verus!
