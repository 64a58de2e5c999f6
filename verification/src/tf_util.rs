//! Small utilities: message framing and the lookup-and-rebroadcast helper.

use crate::msg::{Quaternion, TransformStamped, ONE_BITS};
use vstd::prelude::*;

verus! {

/// The four little-endian bytes of a 32-bit length.
pub open spec fn u32_le_bytes(n: int) -> Seq<u8> {
    seq![
        (n % 256) as u8,
        (n / 256 % 256) as u8,
        (n / 65536 % 256) as u8,
        (n / 16777216 % 256) as u8,
    ]
}

/// Prefix a raw message body with its little-endian 32-bit length header.
pub fn get_message_data_with_header(raw_message_data: &[u8]) -> (r: Vec<u8>)
    requires
        raw_message_data@.len() <= u32::MAX,
    ensures
        r@ == u32_le_bytes(raw_message_data@.len() as int) + raw_message_data@,
{
    let len_header: u32 = raw_message_data.len() as u32;
    let mut msg_with_header: Vec<u8> = Vec::new();
    msg_with_header.push((len_header % 256) as u8);
    msg_with_header.push((len_header / 256 % 256) as u8);
    msg_with_header.push((len_header / 65536 % 256) as u8);
    msg_with_header.push((len_header / 16777216 % 256) as u8);
    msg_with_header.extend_from_slice(raw_message_data);
    proof {
        assert(msg_with_header@ =~= u32_le_bytes(raw_message_data@.len() as int)
            + raw_message_data@);
    }
    msg_with_header
}

/// Rebroadcast helper: rename a looked-up transform to the broadcast
/// parent and child, zeroing out the chosen translation components and,
/// when asked, replacing the rotation with the identity.
pub fn tf2tf(
    tfs: TransformStamped,
    broadcast_parent: &str,
    broadcast_child: &str,
    zero_xyz: (bool, bool, bool),
    zero_rotation: bool,
) -> (r: TransformStamped)
    ensures
        r.header.stamp == tfs.header.stamp,
        r.header.seq == tfs.header.seq,
        r.header.frame_id@ == broadcast_parent@,
        r.child_frame_id@ == broadcast_child@,
        r.transform.translation.x == (if zero_xyz.0 {
            0u64
        } else {
            tfs.transform.translation.x
        }),
        r.transform.translation.y == (if zero_xyz.1 {
            0u64
        } else {
            tfs.transform.translation.y
        }),
        r.transform.translation.z == (if zero_xyz.2 {
            0u64
        } else {
            tfs.transform.translation.z
        }),
        zero_rotation ==> r.transform.rotation == (Quaternion {
            x: 0u64,
            y: 0u64,
            z: 0u64,
            w: ONE_BITS,
        }),
        !zero_rotation ==> r.transform.rotation == tfs.transform.rotation,
{
    let mut tfs = tfs;
    tfs.header.frame_id = broadcast_parent.to_owned();
    tfs.child_frame_id = broadcast_child.to_owned();
    let (zero_x, zero_y, zero_z) = zero_xyz;
    if zero_x {
        tfs.transform.translation.x = 0;
    }
    if zero_y {
        tfs.transform.translation.y = 0;
    }
    if zero_z {
        tfs.transform.translation.z = 0;
    }
    if zero_rotation {
        tfs.transform.rotation = Quaternion { x: 0, y: 0, z: 0, w: ONE_BITS };
    }
    tfs
}

} // verus!
