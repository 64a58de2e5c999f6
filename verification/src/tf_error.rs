//! The tagged failures a lookup or an ingest can report.

use crate::tf_graph_node::TfGraphNode;
use crate::time::Time;
use vstd::prelude::*;

verus! {

/// Enumerates the different kinds of failure. Constructed only at the
/// buffer boundary; callers match on the kind.
#[derive(Clone, Debug)]
pub enum TfError {
    /// The query stamp is older than the edge's earliest sample; carries the
    /// edge key, the earliest stamp, and the query stamp.
    AttemptedLookupInPast(TfGraphNode, Time, Time),
    /// The query stamp is newer than the edge's latest sample; carries the
    /// edge key, the latest stamp, and the query stamp.
    AttemptedLookupInFuture(TfGraphNode, Time, Time),
    /// The parent chain revisits a frame; carries the frame the walk started
    /// from and a snapshot of the child-to-parent index.
    LoopDetected(String, Vec<(String, String)>),
    /// No path joins the two frames (disconnected trees); carries the two
    /// frames and a detail message.
    CouldNotFindTransform(String, String, String),
    /// A concurrent-access failure around the shared buffer.
    CouldNotAcquireLock,
    /// An operation on a buffer that has no edges.
    EmptyTree,
    /// A transform would give an already-registered child a different
    /// parent; carries the child, the rejected new parent, and the parent it
    /// already has.
    ChangingParent(String, String, String),
    /// Surfaced from the transport that feeds the buffer.
    TransportError(String),
}

} // verus!
