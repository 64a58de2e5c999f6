//! A time-indexed coordinate transform graph.
//!
//! The buffer ingests streams of parent->child rigid-body transforms stamped
//! with wall-clock times, stores them in bounded per-edge histories, and
//! answers queries of the form "what is the rigid transform from frame A to
//! frame B at time t?", including temporal interpolation and time-travel
//! queries composed through a designated fixed frame.
//!
//! Rigid-transform components are carried as IEEE-754 bit patterns (`u64`),
//! so every structural decision -- which samples bracket a stamp, which edges
//! a lookup walks and in which direction, what is evicted and when -- is
//! stated and proved here. A lookup yields a [`plan::TransformPlan`] listing
//! the exact stored samples and integer interpolation weights to combine;
//! carrying out the floating-point arithmetic is left to the caller.

pub mod launch;
pub mod msg;
pub mod plan;
pub mod tf_buffer;
pub mod tf_error;
pub mod tf_graph_node;
pub mod tf_individual_transform_chain;
pub mod tf_util;
pub mod time;

pub use launch::{Arg, Cmd, Launch};
pub use msg::{Header, Quaternion, TFMessage, Transform, TransformStamped, Vector3};
pub use plan::{StepValue, TransformPlan, TransformStep};
pub use tf_buffer::TfBuffer;
pub use tf_error::TfError;
pub use tf_graph_node::TfGraphNode;
pub use tf_individual_transform_chain::TfIndividualTransformChain;
pub use tf_util::{get_message_data_with_header, tf2tf};
pub use time::{duration_to_stamp, stamp_to_duration, to_stamp, Duration, Time};
