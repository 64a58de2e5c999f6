//! The per-edge history of stamped transforms.
//!
//! A dynamic edge keeps a strictly stamp-ordered list of samples with a
//! bounded retention window; a static edge collapses to a single timeless
//! value whose stored stamp is zero. Point queries return either a stored
//! sample exactly or the two samples that bracket the query stamp together
//! with the integer interpolation weight.

use crate::msg::{Transform, TransformStamped};
use crate::plan::StepValue;
use crate::tf_error::TfError;
use crate::tf_graph_node::TfGraphNode;
use crate::time::{duration_to_stamp, stamp_to_duration, Duration, Time, NANOS_PER_SEC};
use vstd::arithmetic::div_mod::lemma_div_is_ordered;
use vstd::prelude::*;

verus! {

/// The largest stamp, in nanoseconds, that still splits back into a
/// `(secs, nsecs)` pair with `secs` a 32-bit count of whole seconds.
pub const MAX_STAMP_NANOS: i64 = 4_294_967_295_999_999_999;

/// Whether an edge carries a single timeless value or a stamped history.
/// Fixed when the edge is first created.
#[derive(Clone, Copy, Debug, PartialEq, Eq, Structural)]
pub enum EdgeKind {
    Static,
    Dynamic,
}

/// One stored sample: a stamp in nanoseconds and the transform at it.
#[derive(Clone, Copy, Debug)]
pub struct ChainEntry {
    pub stamp: i64,
    pub transform: Transform,
}

/// The time-ordered history of one directed edge.
#[derive(Clone, Debug)]
pub struct TfIndividualTransformChain {
    pub parent: String,
    pub child: String,
    pub kind: EdgeKind,
    /// Retention window in nanoseconds; never negative.
    pub cache_duration: i64,
    pub transform_chain: Vec<ChainEntry>,
}

/// Stamps are strictly increasing along the history.
pub open spec fn stamps_sorted(s: Seq<ChainEntry>) -> bool {
    forall|i: int, j: int| 0 <= i < j < s.len() ==> s[i].stamp < s[j].stamp
}

/// Every stored stamp is a representable wall-clock instant.
pub open spec fn entries_in_range(s: Seq<ChainEntry>) -> bool {
    forall|i: int| 0 <= i < s.len() ==> 0 <= #[trigger] s[i].stamp <= MAX_STAMP_NANOS
}

/// The history after placing a sample: ordered by stamp, overwriting an
/// entry whose stamp is already present.
pub open spec fn chain_insert(s: Seq<ChainEntry>, e: ChainEntry) -> Seq<ChainEntry>
    decreases s.len(),
{
    if s.len() == 0 {
        seq![e]
    } else if e.stamp < s[0].stamp {
        seq![e] + s
    } else if e.stamp == s[0].stamp {
        seq![e] + s.drop_first()
    } else {
        seq![s[0]] + chain_insert(s.drop_first(), e)
    }
}

/// The history after retention: entries strictly older than the latest
/// stamp minus the cache window are dropped from the front.
pub open spec fn chain_evict(s: Seq<ChainEntry>, cache: int) -> Seq<ChainEntry>
    decreases s.len(),
{
    if s.len() <= 1 {
        s
    } else if s[0].stamp < s.last().stamp - cache {
        chain_evict(s.drop_first(), cache)
    } else {
        s
    }
}

/// What a point query between two bracketing samples yields, with
/// `e1.stamp < t < e2.stamp`: equal payloads collapse to the payload
/// itself, otherwise the pair is kept with weight `num / den` meaning
/// weight `1` at `e1` and weight `0` at `e2`.
pub open spec fn blend_value(e1: ChainEntry, e2: ChainEntry, t: int) -> StepValue {
    if e1.transform == e2.transform {
        StepValue::Exact(e1.transform)
    } else {
        StepValue::Blend {
            first: e1.transform,
            second: e2.transform,
            num: (e2.stamp - t) as i64,
            den: (e2.stamp - e1.stamp) as i64,
        }
    }
}

impl TfIndividualTransformChain {
    /// Structural soundness of a history: ordered representable stamps, a
    /// static edge holds at most one entry stored at stamp zero, and the
    /// retention bound holds.
    pub open spec fn wf(self) -> bool {
        &&& 0 <= self.cache_duration
        &&& stamps_sorted(self.transform_chain@)
        &&& entries_in_range(self.transform_chain@)
        &&& self.kind is Static ==> self.transform_chain@.len() <= 1
        &&& self.kind is Static ==> (forall|i: int|
            0 <= i < self.transform_chain@.len() ==> #[trigger] self.transform_chain@[i].stamp == 0)
        &&& self.transform_chain@.len() >= 1 ==> self.transform_chain@.last().stamp - self.transform_chain@.first().stamp
            <= self.cache_duration
    }

    /// Earliest stored stamp, in nanoseconds.
    pub open spec fn spec_first_stamp(self) -> int {
        self.transform_chain@.first().stamp as int
    }

    /// Latest stored stamp, in nanoseconds.
    pub open spec fn spec_last_stamp(self) -> int {
        self.transform_chain@.last().stamp as int
    }

    /// A fresh, empty history for the edge `parent -> child`.
    pub fn new(parent: String, child: String, is_static: bool, cache_duration: Duration) -> (r:
        TfIndividualTransformChain)
        requires
            0 <= cache_duration.nanos,
        ensures
            r.wf(),
            r.parent@ == parent@,
            r.child@ == child@,
            r.kind == (if is_static {
                EdgeKind::Static
            } else {
                EdgeKind::Dynamic
            }),
            r.cache_duration == cache_duration.nanos,
            r.transform_chain@.len() == 0,
    {
        TfIndividualTransformChain {
            parent,
            child,
            kind: if is_static {
                EdgeKind::Static
            } else {
                EdgeKind::Dynamic
            },
            cache_duration: cache_duration.nanos,
            transform_chain: Vec::new(),
        }
    }

    /// Whether this edge is static.
    pub fn is_static(&self) -> (r: bool)
        ensures
            r == (self.kind is Static),
    {
        match self.kind {
            EdgeKind::Static => true,
            EdgeKind::Dynamic => false,
        }
    }

    /// Number of stored samples.
    pub fn len(&self) -> (r: usize)
        ensures
            r == self.transform_chain@.len(),
    {
        self.transform_chain.len()
    }

    /// The latest stored stamp, if any sample is stored.
    pub fn newest_stamp(&self) -> (r: Option<Duration>)
        requires
            self.wf(),
        ensures
            self.transform_chain@.len() == 0 ==> r is None,
            self.transform_chain@.len() >= 1 ==> (r matches Some(d) && d.nanos == self.spec_last_stamp()),
    {
        if self.transform_chain.len() == 0 {
            None
        } else {
            Some(Duration { nanos: self.transform_chain[self.transform_chain.len() - 1].stamp })
        }
    }

    /// The stored stamps in order, as wall-clock stamps. By the ordering
    /// invariant they come out strictly increasing.
    pub fn stamps(&self) -> (r: Vec<Time>)
        requires
            self.wf(),
        ensures
            r@.len() == self.transform_chain@.len(),
            forall|i: int|
                0 <= i < r@.len() ==> #[trigger] r@[i].spec_nanos() == self.transform_chain@[i].stamp,
    {
        let mut out: Vec<Time> = Vec::new();
        let mut idx: usize = 0;
        while idx < self.transform_chain.len()
            invariant
                self.wf(),
                idx <= self.transform_chain@.len(),
                out@.len() == idx,
                forall|i: int|
                    0 <= i < idx ==> #[trigger] out@[i].spec_nanos() == self.transform_chain@[i].stamp,
            decreases self.transform_chain@.len() - idx,
        {
            out.push(stamp_of_nanos(self.transform_chain[idx].stamp));
            idx = idx + 1;
        }
        out
    }

    /// Iterating an edge's history yields strictly increasing stamps: the
    /// chain-ordering law, here as a consequence of well-formedness.
    pub proof fn lemma_chain_ordering(self)
        requires
            self.wf(),
        ensures
            forall|i: int, j: int|
                0 <= i < j < self.transform_chain@.len() ==> self.transform_chain@[i].stamp
                    < self.transform_chain@[j].stamp,
    {
    }

    /// For every history that went through any sequence of insertions, the
    /// first stored stamp is at least the last stored stamp minus the cache
    /// window: the retention law, as a consequence of well-formedness.
    pub proof fn lemma_chain_retention(self)
        requires
            self.wf(),
            self.transform_chain@.len() >= 1,
        ensures
            self.spec_first_stamp() >= self.spec_last_stamp() - self.cache_duration,
    {
    }

    /// Store one sample. A static edge collapses to the new value at stamp
    /// zero; a dynamic edge inserts by stamp (overwriting an equal stamp)
    /// and then evicts entries that fell out of the retention window.
    pub fn add_to_buffer(&mut self, msg: &TransformStamped)
        requires
            old(self).wf(),
            msg.header.frame_id@ == old(self).parent@,
            msg.child_frame_id@ == old(self).child@,
            msg.header.stamp.spec_nanos() <= MAX_STAMP_NANOS as int,
        ensures
            final(self).wf(),
            final(self).parent@ == old(self).parent@,
            final(self).child@ == old(self).child@,
            final(self).kind == old(self).kind,
            final(self).cache_duration == old(self).cache_duration,
            final(self).transform_chain@.len() >= 1,
            old(self).kind is Static ==> final(self).transform_chain@ == seq![
                ChainEntry { stamp: 0, transform: msg.transform },
            ],
            old(self).kind is Dynamic ==> final(self).transform_chain@ == chain_evict(
                chain_insert(
                    old(self).transform_chain@,
                    ChainEntry {
                        stamp: msg.header.stamp.spec_nanos() as i64,
                        transform: msg.transform,
                    },
                ),
                old(self).cache_duration as int,
            ),
    {
        match self.kind {
            EdgeKind::Static => {
                let entry = ChainEntry { stamp: 0, transform: msg.transform };
                self.transform_chain = vec![entry];
                assert(self.transform_chain@ =~= seq![ChainEntry { stamp: 0, transform: msg.transform }]);
            },
            EdgeKind::Dynamic => {
                let t: i64 = stamp_to_duration(&msg.header.stamp).nanos;
                let entry = ChainEntry { stamp: t, transform: msg.transform };
                let ghost pre = self.transform_chain@;

                // Insertion position: the first index whose stamp is >= t.
                let mut idx: usize = 0;
                while idx < self.transform_chain.len() && self.transform_chain[idx].stamp < t
                    invariant
                        idx <= self.transform_chain@.len(),
                        forall|k: int| 0 <= k < idx ==> #[trigger] self.transform_chain@[k].stamp < t,
                        self.transform_chain@ == pre,
                    decreases self.transform_chain@.len() - idx,
                {
                    idx = idx + 1;
                }

                if idx < self.transform_chain.len() && self.transform_chain[idx].stamp == t {
                    self.transform_chain.set(idx, entry);
                    proof {
                        lemma_chain_insert_at(pre, entry, idx as int);
                        assert(self.transform_chain@ =~= pre.take(idx as int) + seq![entry] + pre.skip(
                            idx as int + 1,
                        ));
                    }
                } else {
                    self.transform_chain.insert(idx, entry);
                    proof {
                        lemma_chain_insert_at(pre, entry, idx as int);
                        assert(self.transform_chain@ =~= pre.take(idx as int) + seq![entry] + pre.skip(
                            idx as int,
                        ));
                    }
                }
                proof {
                    lemma_chain_insert_props(pre, entry);
                }
                let ghost inserted = self.transform_chain@;
                assert(inserted == chain_insert(pre, entry));
                let ghost cache = self.cache_duration as int;

                // Retention: drop entries strictly older than latest - cache.
                while self.transform_chain.len() > 1 && self.transform_chain[0].stamp < self.transform_chain[self.transform_chain.len()
                    - 1].stamp - self.cache_duration
                    invariant
                        self.parent@ == old(self).parent@,
                        self.child@ == old(self).child@,
                        self.kind == old(self).kind,
                        self.kind is Dynamic,
                        self.cache_duration == old(self).cache_duration,
                        self.transform_chain@.len() >= 1,
                        stamps_sorted(self.transform_chain@),
                        entries_in_range(self.transform_chain@),
                        0 <= self.cache_duration,
                        cache == self.cache_duration as int,
                        self.transform_chain@.last() == inserted.last(),
                        chain_evict(self.transform_chain@, cache) == chain_evict(inserted, cache),
                    decreases self.transform_chain@.len(),
                {
                    let ghost before = self.transform_chain@;
                    proof {
                        assert(chain_evict(before, cache) == chain_evict(before.drop_first(), cache));
                    }
                    self.transform_chain.remove(0);
                    assert(self.transform_chain@ =~= before.drop_first());
                }
                proof {
                    assert(chain_evict(self.transform_chain@, cache) == self.transform_chain@);
                    assert(self.transform_chain@ == chain_evict(inserted, cache));
                }
            },
        }
    }

    /// Whether a query at `stamp` must fail: a stamped query on a dynamic
    /// edge whose stored window does not cover the stamp.
    pub open spec fn out_of_range(self, stamp: Option<Time>) -> bool {
        match stamp {
            None => false,
            Some(q) => self.kind is Dynamic && (q.spec_nanos() < self.spec_first_stamp()
                || q.spec_nanos() > self.spec_last_stamp()),
        }
    }

    /// What a point query answers. An empty history is a tagged error. A
    /// static edge, or a query without a stamp, yields the latest stored
    /// value exactly. A dynamic edge with stamp `t` yields: the stored
    /// sample at `t` when one exists; an in-past or in-future error when
    /// `t` lies outside the stored window, carrying the boundary stamp in
    /// normalized form; and otherwise the bracketing pair with its
    /// interpolation weight, where a pair with equal payloads collapses to
    /// that payload.
    pub open spec fn get_spec(self, stamp: Option<Time>, r: Result<StepValue, TfError>) -> bool {
        &&& (self.transform_chain@.len() == 0 ==> (r matches Err(e)
            && e matches TfError::CouldNotFindTransform(a, b, _d) && a@ == self.parent@ && b@
            == self.child@))
        &&& (self.transform_chain@.len() >= 1 && (stamp is None || self.kind is Static) ==> (
        r matches Ok(v) && v == StepValue::Exact(self.transform_chain@.last().transform)))
        &&& (match stamp {
            None => true,
            Some(q) => self.transform_chain@.len() >= 1 && self.kind is Dynamic ==> {
                let t = q.spec_nanos();
                &&& t < self.spec_first_stamp() ==> (r matches Err(e)
                    && e matches TfError::AttemptedLookupInPast(node, first, at) && node.parent@
                    == self.parent@ && node.child@ == self.child@ && first.spec_nanos()
                    == self.spec_first_stamp() && first.nsecs < NANOS_PER_SEC && at == q)
                &&& t > self.spec_last_stamp() ==> (r matches Err(e)
                    && e matches TfError::AttemptedLookupInFuture(node, last, at) && node.parent@
                    == self.parent@ && node.child@ == self.child@ && last.spec_nanos()
                    == self.spec_last_stamp() && last.nsecs < NANOS_PER_SEC && at == q)
                &&& (exists|i: int|
                    0 <= i < self.transform_chain@.len()
                        && #[trigger] self.transform_chain@[i].stamp == t) ==> (r matches Ok(v)
                    && exists|i: int|
                    0 <= i < self.transform_chain@.len()
                        && #[trigger] self.transform_chain@[i].stamp == t && v == StepValue::Exact(
                        self.transform_chain@[i].transform,
                    ))
                &&& self.spec_first_stamp() <= t <= self.spec_last_stamp() && (forall|i: int|
                    0 <= i < self.transform_chain@.len()
                        ==> #[trigger] self.transform_chain@[i].stamp != t) ==> (r matches Ok(v)
                    && exists|i: int|
                    {
                        &&& 0 <= i < self.transform_chain@.len() - 1
                        &&& #[trigger] self.transform_chain@[i].stamp < t < self.transform_chain@[i
                            + 1].stamp
                        &&& v == blend_value(
                            self.transform_chain@[i],
                            self.transform_chain@[i + 1],
                            t,
                        )
                    })
            },
        })
    }

    /// Answer a point query; the answer is pinned by [`Self::get_spec`].
    #[verifier::rlimit(60)]
    pub fn get_closest_transform(&self, stamp: Option<Time>) -> (r: Result<StepValue, TfError>)
        requires
            self.wf(),
        ensures
            self.get_spec(stamp, r),
            r matches Ok(v) ==> v.wf(),
            r is Err <==> self.transform_chain@.len() == 0 || self.out_of_range(stamp),
    {
        if self.transform_chain.len() == 0 {
            return Err(
                TfError::CouldNotFindTransform(
                    self.parent.clone(),
                    self.child.clone(),
                    "the edge has no stored samples".to_owned(),
                ),
            );
        }
        let is_static = self.is_static();
        match stamp {
            None => Ok(StepValue::Exact(self.transform_chain[self.transform_chain.len() - 1].transform)),
            Some(q) => {
                if is_static {
                    return Ok(StepValue::Exact(self.transform_chain[self.transform_chain.len() - 1].transform));
                }
                let t: i64 = stamp_to_duration(&q).nanos;

                // The first index whose stamp is >= t.
                let mut idx: usize = 0;
                while idx < self.transform_chain.len() && self.transform_chain[idx].stamp < t
                    invariant
                        self.wf(),
                        self.transform_chain@.len() >= 1,
                        idx <= self.transform_chain@.len(),
                        forall|k: int| 0 <= k < idx ==> #[trigger] self.transform_chain@[k].stamp < t,
                    decreases self.transform_chain@.len() - idx,
                {
                    idx = idx + 1;
                }

                if idx == self.transform_chain.len() {
                    // Query is newer than everything stored.
                    let node = TfGraphNode { parent: self.parent.clone(), child: self.child.clone() };
                    let last = stamp_of_nanos(self.transform_chain[self.transform_chain.len() - 1].stamp);
                    Err(TfError::AttemptedLookupInFuture(node, last, q))
                } else if self.transform_chain[idx].stamp == t {
                    // An exact sample at the query stamp.
                    Ok(StepValue::Exact(self.transform_chain[idx].transform))
                } else if idx == 0 {
                    // Query is older than everything stored.
                    proof {
                        assert(forall|i: int|
                            0 < i < self.transform_chain@.len() ==> #[trigger] self.transform_chain@[i].stamp
                                > self.transform_chain@[0].stamp);
                    }
                    let node = TfGraphNode { parent: self.parent.clone(), child: self.child.clone() };
                    let first = stamp_of_nanos(self.transform_chain[0].stamp);
                    Err(TfError::AttemptedLookupInPast(node, first, q))
                } else {
                    // Strictly between two stored samples.
                    let e1 = self.transform_chain[idx - 1];
                    let e2 = self.transform_chain[idx];
                    proof {
                        assert(self.transform_chain@[idx - 1].stamp < t < self.transform_chain@[idx as int].stamp);
                        assert(forall|i: int|
                            idx <= i < self.transform_chain@.len() ==> #[trigger] self.transform_chain@[i].stamp
                                >= self.transform_chain@[idx as int].stamp);
                        assert(forall|i: int|
                            0 <= i < self.transform_chain@.len() ==> #[trigger] self.transform_chain@[i].stamp
                                != t);
                    }
                    if e1.transform == e2.transform {
                        proof {
                            assert(blend_value(
                                self.transform_chain@[idx - 1],
                                self.transform_chain@[idx as int],
                                t as int,
                            ) == StepValue::Exact(e1.transform));
                        }
                        Ok(StepValue::Exact(e1.transform))
                    } else {
                        Ok(
                            StepValue::Blend {
                                first: e1.transform,
                                second: e2.transform,
                                num: e2.stamp - t,
                                den: e2.stamp - e1.stamp,
                            },
                        )
                    }
                }
            },
        }
    }
}

/// Turn a stored nanosecond stamp back into a wall-clock stamp.
pub(crate) fn stamp_of_nanos(nanos: i64) -> (r: Time)
    requires
        0 <= nanos <= MAX_STAMP_NANOS as int,
    ensures
        r.spec_nanos() == nanos,
        r.nsecs < NANOS_PER_SEC,
{
    proof {
        lemma_div_is_ordered(nanos as int, MAX_STAMP_NANOS as int, NANOS_PER_SEC as int);
        assert(MAX_STAMP_NANOS as int == u32::MAX * (NANOS_PER_SEC as int) + (NANOS_PER_SEC as int
            - 1));
        vstd::arithmetic::div_mod::lemma_fundamental_div_mod_converse(
            MAX_STAMP_NANOS as int,
            NANOS_PER_SEC as int,
            u32::MAX as int,
            NANOS_PER_SEC as int - 1,
        );
    }
    duration_to_stamp(Duration { nanos })
}

/// Relates the recursive insertion spec to the insertion position the
/// executable search finds: all stamps before `idx` are below the new one,
/// and the entry at `idx`, if any, is not below it.
proof fn lemma_chain_insert_at(s: Seq<ChainEntry>, e: ChainEntry, idx: int)
    requires
        stamps_sorted(s),
        0 <= idx <= s.len(),
        forall|k: int| 0 <= k < idx ==> #[trigger] s[k].stamp < e.stamp,
        idx < s.len() ==> s[idx].stamp >= e.stamp,
    ensures
        idx < s.len() && s[idx].stamp == e.stamp ==> chain_insert(s, e) =~= s.take(idx)
            + seq![e] + s.skip(idx + 1),
        idx == s.len() || s[idx].stamp > e.stamp ==> chain_insert(s, e) =~= s.take(idx)
            + seq![e] + s.skip(idx),
    decreases idx,
{
    if idx == 0 {
        if s.len() == 0 {
            assert(chain_insert(s, e) =~= s.take(0) + seq![e] + s.skip(0));
        } else if s[0].stamp == e.stamp {
            assert(chain_insert(s, e) =~= s.take(0) + seq![e] + s.skip(1));
        } else {
            assert(chain_insert(s, e) =~= s.take(0) + seq![e] + s.skip(0));
        }
    } else {
        let rest = s.drop_first();
        assert(forall|k: int| 0 <= k < idx - 1 ==> #[trigger] rest[k].stamp < e.stamp);
        lemma_chain_insert_at(rest, e, idx - 1);
        assert(s[0].stamp < e.stamp);
        assert(chain_insert(s, e) == seq![s[0]] + chain_insert(rest, e));
        if idx < s.len() && s[idx].stamp == e.stamp {
            assert(chain_insert(rest, e) =~= rest.take(idx - 1) + seq![e] + rest.skip(idx));
            assert(chain_insert(s, e) =~= s.take(idx) + seq![e] + s.skip(idx + 1));
        } else {
            assert(chain_insert(rest, e) =~= rest.take(idx - 1) + seq![e] + rest.skip(idx - 1));
            assert(chain_insert(s, e) =~= s.take(idx) + seq![e] + s.skip(idx));
        }
    }
}

/// Insertion keeps the history ordered and in range, stores the new entry,
/// and moves the latest stamp to the maximum of old latest and new.
proof fn lemma_chain_insert_props(s: Seq<ChainEntry>, e: ChainEntry)
    requires
        stamps_sorted(s),
        entries_in_range(s),
        0 <= e.stamp <= MAX_STAMP_NANOS as int,
    ensures
        stamps_sorted(chain_insert(s, e)),
        entries_in_range(chain_insert(s, e)),
        chain_insert(s, e).len() >= 1,
        chain_insert(s, e).last().stamp == if s.len() > 0 && s.last().stamp > e.stamp {
            s.last().stamp
        } else {
            e.stamp
        },
        chain_insert(s, e).first().stamp == if s.len() > 0 && s[0].stamp < e.stamp {
            s[0].stamp
        } else {
            e.stamp
        },
    decreases s.len(),
{
    if s.len() == 0 {
    } else if e.stamp < s[0].stamp {
    } else if e.stamp == s[0].stamp {
    } else {
        lemma_chain_insert_props(s.drop_first(), e);
    }
}

/// Retention keeps at least the latest entry, keeps the order, and leaves
/// the surviving window within the cache bound.
proof fn lemma_chain_evict_props(s: Seq<ChainEntry>, cache: int)
    requires
        stamps_sorted(s),
        entries_in_range(s),
        0 <= cache,
        s.len() >= 1,
    ensures
        chain_evict(s, cache).len() >= 1,
        stamps_sorted(chain_evict(s, cache)),
        entries_in_range(chain_evict(s, cache)),
        chain_evict(s, cache).last() == s.last(),
        chain_evict(s, cache).last().stamp - chain_evict(s, cache).first().stamp <= cache,
    decreases s.len(),
{
    if s.len() <= 1 {
    } else if s[0].stamp < s.last().stamp - cache {
        assert(s.drop_first().last() == s.last());
        lemma_chain_evict_props(s.drop_first(), cache);
    } else {
    }
}

/// Interpolation idempotence: blending two samples that carry the same
/// transform yields that transform exactly, whatever the weight.
pub proof fn lemma_interpolation_idempotent(e1: ChainEntry, e2: ChainEntry, t: int)
    requires
        e1.transform == e2.transform,
    ensures
        blend_value(e1, e2, t) == StepValue::Exact(e1.transform),
{
}

impl TfIndividualTransformChain {
    /// The point-query contract pins the answer: two values both allowed
    /// at the same stamp are the same value.
    pub proof fn lemma_get_spec_deterministic(self, stamp: Option<Time>, v1: StepValue, v2: StepValue)
        requires
            self.wf(),
            self.transform_chain@.len() >= 1,
            self.get_spec(stamp, Ok(v1)),
            self.get_spec(stamp, Ok(v2)),
        ensures
            v1 == v2,
    {
        match stamp {
            None => {},
            Some(q) => {
                if self.kind is Dynamic {
                    let t = q.spec_nanos();
                    let s = self.transform_chain@;
                    if t < self.spec_first_stamp() || t > self.spec_last_stamp() {
                        // the contract demands an error here; both answers
                        // being values is contradictory
                        assert(false);
                    } else if exists|i: int| 0 <= i < s.len() && #[trigger] s[i].stamp == t {
                        let i1 = choose|i: int|
                            0 <= i < s.len() && #[trigger] s[i].stamp == t && v1 == StepValue::Exact(
                                s[i].transform,
                            );
                        let i2 = choose|i: int|
                            0 <= i < s.len() && #[trigger] s[i].stamp == t && v2 == StepValue::Exact(
                                s[i].transform,
                            );
                        assert(i1 == i2);
                    } else {
                        let i1 = choose|i: int|
                            {
                                &&& 0 <= i < s.len() - 1
                                &&& #[trigger] s[i].stamp < t < s[i + 1].stamp
                                &&& v1 == blend_value(s[i], s[i + 1], t)
                            };
                        let i2 = choose|i: int|
                            {
                                &&& 0 <= i < s.len() - 1
                                &&& #[trigger] s[i].stamp < t < s[i + 1].stamp
                                &&& v2 == blend_value(s[i], s[i + 1], t)
                            };
                        if i1 < i2 {
                            assert(s[i1 + 1].stamp <= s[i2].stamp);
                            assert(false);
                        }
                        if i2 < i1 {
                            assert(s[i2 + 1].stamp <= s[i1].stamp);
                            assert(false);
                        }
                        assert(i1 == i2);
                    }
                }
            },
        }
    }
}

} // verus!
