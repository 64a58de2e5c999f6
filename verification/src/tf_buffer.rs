//! The transform graph: indices, ingest, traversal and lookups.
//!
//! Frames are registered implicitly by the transforms that mention them.
//! The buffer keeps a child-to-parent index (at most one parent per child),
//! a parent-to-children index for reverse traversal, and one history per
//! directed edge. Lookups resolve a path between two frames through their
//! lowest common ancestor and report the exact per-hop samples and weights
//! as a [`TransformPlan`].

use crate::msg::{TFMessage, TransformStamped};
use crate::plan::{TransformPlan, TransformStep};
use crate::tf_error::TfError;
use crate::tf_individual_transform_chain::{
    chain_evict, chain_insert, stamp_of_nanos, ChainEntry, EdgeKind, TfIndividualTransformChain,
    MAX_STAMP_NANOS,
};
use crate::time::{Duration, Time, NANOS_PER_SEC};
use vstd::prelude::*;

verus! {

/// Default retention window, in whole seconds, for buffers built with
/// [`TfBuffer::new`].
pub const DEFAULT_CACHE_DURATION_SECONDS: u16 = 10;

/// The time-indexed transform graph.
#[derive(Clone, Debug)]
pub struct TfBuffer {
    /// Child frame -> parent frame; at most one entry per child.
    pub parent_transform_index: Vec<(String, String)>,
    /// Parent frame -> its child frames; at most one entry per parent, and
    /// no child listed twice under one parent.
    pub child_transform_index: Vec<(String, Vec<String>)>,
    /// One history per directed edge, keyed by its own parent and child.
    pub transform_data: Vec<TfIndividualTransformChain>,
    /// Retention window handed to every edge history; never negative.
    pub cache_duration: Duration,
}

/// The parent registered for `child`, walking the index front to back.
pub open spec fn find_parent(pi: Seq<(String, String)>, child: Seq<char>) -> Option<Seq<char>>
    decreases pi.len(),
{
    if pi.len() == 0 {
        None
    } else if pi[0].0@ == child {
        Some(pi[0].1@)
    } else {
        find_parent(pi.drop_first(), child)
    }
}

/// No child is registered twice.
pub open spec fn parent_index_unique(pi: Seq<(String, String)>) -> bool {
    forall|i: int, j: int| 0 <= i < j < pi.len() ==> pi[i].0@ != pi[j].0@
}

/// The position of the entry for parent `p` in the children index.
pub open spec fn find_children_idx(ci: Seq<(String, Vec<String>)>, p: Seq<char>) -> Option<int>
    decreases ci.len(),
{
    if ci.len() == 0 {
        None
    } else if ci[0].0@ == p {
        Some(0)
    } else {
        match find_children_idx(ci.drop_first(), p) {
            None => None,
            Some(i) => Some(i + 1),
        }
    }
}

/// Whether the list of names contains `c`.
pub open spec fn names_contain(s: Seq<String>, c: Seq<char>) -> bool {
    exists|i: int| 0 <= i < s.len() && s[i]@ == c
}

/// Whether `c` is listed among the children of `p`.
pub open spec fn child_listed(ci: Seq<(String, Vec<String>)>, p: Seq<char>, c: Seq<char>) -> bool {
    match find_children_idx(ci, p) {
        None => false,
        Some(i) => names_contain(ci[i].1@, c),
    }
}

/// No parent has two entries in the children index.
pub open spec fn children_index_unique(ci: Seq<(String, Vec<String>)>) -> bool {
    &&& forall|i: int, j: int| 0 <= i < j < ci.len() ==> ci[i].0@ != ci[j].0@
    &&& forall|k: int|
        0 <= k < ci.len() ==> (forall|i: int, j: int|
            0 <= i < j < (#[trigger] ci[k].1)@.len() ==> ci[k].1@[i]@ != ci[k].1@[j]@)
}

/// The position of the history for the directed edge `p -> c`.
pub open spec fn find_edge_idx(
    td: Seq<TfIndividualTransformChain>,
    p: Seq<char>,
    c: Seq<char>,
) -> Option<int>
    decreases td.len(),
{
    if td.len() == 0 {
        None
    } else if td[0].parent@ == p && td[0].child@ == c {
        Some(0)
    } else {
        match find_edge_idx(td.drop_first(), p, c) {
            None => None,
            Some(i) => Some(i + 1),
        }
    }
}

/// Whether the directed edge `p -> c` has a history.
pub open spec fn has_edge(td: Seq<TfIndividualTransformChain>, p: Seq<char>, c: Seq<char>) -> bool {
    find_edge_idx(td, p, c) is Some
}

/// The history of the directed edge `p -> c`, where one exists.
pub open spec fn edge_at(
    td: Seq<TfIndividualTransformChain>,
    p: Seq<char>,
    c: Seq<char>,
) -> TfIndividualTransformChain {
    match find_edge_idx(td, p, c) {
        None => td[0],
        Some(i) => td[i],
    }
}

/// No directed edge has two histories.
pub open spec fn edges_unique(td: Seq<TfIndividualTransformChain>) -> bool {
    forall|i: int, j: int|
        0 <= i < j < td.len() ==> !(td[i].parent@ == td[j].parent@ && td[i].child@
            == td[j].child@)
}

impl TfBuffer {
    /// The graph invariant: unique indices, well-formed non-empty edge
    /// histories, every edge agreeing with the child-to-parent index, and
    /// both directions of the child/parent bookkeeping consistent.
    pub open spec fn wf(self) -> bool {
        &&& 0 <= self.cache_duration.nanos
        &&& parent_index_unique(self.parent_transform_index@)
        &&& children_index_unique(self.child_transform_index@)
        &&& edges_unique(self.transform_data@)
        &&& forall|k: int|
            0 <= k < self.transform_data@.len() ==> {
                let ch = #[trigger] self.transform_data@[k];
                &&& ch.wf()
                &&& ch.transform_chain@.len() >= 1
                &&& find_parent(self.parent_transform_index@, ch.child@) == Some(ch.parent@)
            }
        &&& forall|k: int|
            0 <= k < self.parent_transform_index@.len() ==> has_edge(
                self.transform_data@,
                (#[trigger] self.parent_transform_index@[k]).1@,
                self.parent_transform_index@[k].0@,
            )
        &&& forall|k: int|
            0 <= k < self.parent_transform_index@.len() ==> child_listed(
                self.child_transform_index@,
                (#[trigger] self.parent_transform_index@[k]).1@,
                self.parent_transform_index@[k].0@,
            )
        &&& forall|k: int, j: int|
            0 <= k < self.child_transform_index@.len() && 0 <= j
                < self.child_transform_index@[k].1@.len() ==> #[trigger] find_parent(
                self.parent_transform_index@,
                self.child_transform_index@[k].1@[j]@,
            ) == Some(self.child_transform_index@[k].0@)
    }

    /// Every child in the child-to-parent index has exactly one parent
    /// there, and that parent's children list contains the child: the
    /// single-parent consistency law, as a consequence of the invariant.
    pub proof fn lemma_child_parent_consistency(self)
        requires
            self.wf(),
        ensures
            parent_index_unique(self.parent_transform_index@),
            forall|k: int|
                0 <= k < self.parent_transform_index@.len() ==> child_listed(
                    self.child_transform_index@,
                    (#[trigger] self.parent_transform_index@[k]).1@,
                    self.parent_transform_index@[k].0@,
                ),
    {
    }

    /// A buffer with the default retention window.
    pub fn new() -> (r: TfBuffer)
        ensures
            r.wf(),
            r.parent_transform_index@.len() == 0,
            r.child_transform_index@.len() == 0,
            r.transform_data@.len() == 0,
            r.cache_duration.nanos == DEFAULT_CACHE_DURATION_SECONDS * 1_000_000_000,
    {
        TfBuffer {
            parent_transform_index: Vec::new(),
            child_transform_index: Vec::new(),
            transform_data: Vec::new(),
            cache_duration: Duration { nanos: DEFAULT_CACHE_DURATION_SECONDS as i64 * 1_000_000_000 },
        }
    }

    /// A buffer with the given retention window.
    pub fn new_with_duration(cache_duration: Duration) -> (r: TfBuffer)
        requires
            0 <= cache_duration.nanos,
        ensures
            r.wf(),
            r.parent_transform_index@.len() == 0,
            r.child_transform_index@.len() == 0,
            r.transform_data@.len() == 0,
            r.cache_duration == cache_duration,
    {
        TfBuffer {
            parent_transform_index: Vec::new(),
            child_transform_index: Vec::new(),
            transform_data: Vec::new(),
            cache_duration,
        }
    }
}

impl Default for TfBuffer {
    /// Same as [`TfBuffer::new`].
    fn default() -> (r: TfBuffer)
        ensures
            r.wf(),
            r.parent_transform_index@.len() == 0,
            r.child_transform_index@.len() == 0,
            r.transform_data@.len() == 0,
    {
        TfBuffer::new()
    }
}

/// Find the index of `child` in the child-to-parent index.
fn pi_find(pi: &Vec<(String, String)>, child: &String) -> (r: Option<usize>)
    ensures
        match r {
            Some(k) => k < pi@.len() && pi@[k as int].0@ == child@ && find_parent(pi@, child@)
                == Some(pi@[k as int].1@),
            None => find_parent(pi@, child@) is None,
        },
{
    let mut i: usize = 0;
    while i < pi.len()
        invariant
            i <= pi@.len(),
            forall|m: int| 0 <= m < i ==> (#[trigger] pi@[m]).0@ != child@,
        decreases pi@.len() - i,
    {
        if pi[i].0 == *child {
            proof {
                lemma_find_parent_skip(pi@, child@, i as int);
                assert(pi@.skip(i as int)[0] == pi@[i as int]);
            }
            return Some(i);
        }
        i = i + 1;
    }
    proof {
        lemma_find_parent_skip(pi@, child@, pi@.len() as int);
        assert(pi@.skip(pi@.len() as int) =~= Seq::<(String, String)>::empty());
    }
    None
}

/// Find the index of the entry for `p` in the children index.
fn ci_find(ci: &Vec<(String, Vec<String>)>, p: &String) -> (r: Option<usize>)
    ensures
        match r {
            Some(k) => find_children_idx(ci@, p@) == Some(k as int),
            None => find_children_idx(ci@, p@) is None,
        },
{
    let mut i: usize = 0;
    while i < ci.len()
        invariant
            i <= ci@.len(),
            forall|m: int| 0 <= m < i ==> (#[trigger] ci@[m]).0@ != p@,
        decreases ci@.len() - i,
    {
        if ci[i].0 == *p {
            proof {
                lemma_find_children_skip(ci@, p@, i as int);
                assert(ci@.skip(i as int)[0] == ci@[i as int]);
            }
            return Some(i);
        }
        i = i + 1;
    }
    proof {
        lemma_find_children_skip(ci@, p@, ci@.len() as int);
        assert(ci@.skip(ci@.len() as int) =~= Seq::<(String, Vec<String>)>::empty());
    }
    None
}

/// Find the index of the name `c` in a list of names.
fn names_find(s: &Vec<String>, c: &String) -> (r: Option<usize>)
    ensures
        match r {
            Some(k) => k < s@.len() && s@[k as int]@ == c@,
            None => !names_contain(s@, c@),
        },
{
    let mut i: usize = 0;
    while i < s.len()
        invariant
            i <= s@.len(),
            forall|m: int| 0 <= m < i ==> (#[trigger] s@[m])@ != c@,
        decreases s@.len() - i,
    {
        if s[i] == *c {
            return Some(i);
        }
        i = i + 1;
    }
    None
}

/// Find the index of the history for the edge `p -> c`.
fn td_find(td: &Vec<TfIndividualTransformChain>, p: &String, c: &String) -> (r: Option<usize>)
    ensures
        match r {
            Some(k) => find_edge_idx(td@, p@, c@) == Some(k as int),
            None => find_edge_idx(td@, p@, c@) is None,
        },
{
    let mut i: usize = 0;
    while i < td.len()
        invariant
            i <= td@.len(),
            forall|m: int|
                0 <= m < i ==> !((#[trigger] td@[m]).parent@ == p@ && td@[m].child@ == c@),
        decreases td@.len() - i,
    {
        if td[i].parent == *p && td[i].child == *c {
            proof {
                lemma_find_edge_skip(td@, p@, c@, i as int);
                assert(td@.skip(i as int)[0] == td@[i as int]);
            }
            return Some(i);
        }
        i = i + 1;
    }
    proof {
        lemma_find_edge_skip(td@, p@, c@, td@.len() as int);
        assert(td@.skip(td@.len() as int) =~= Seq::<TfIndividualTransformChain>::empty());
    }
    None
}

/// Skipping entries whose key is not `c` does not change the search result.
proof fn lemma_find_parent_skip(pi: Seq<(String, String)>, c: Seq<char>, k: int)
    requires
        0 <= k <= pi.len(),
        forall|m: int| 0 <= m < k ==> (#[trigger] pi[m]).0@ != c,
    ensures
        find_parent(pi, c) == find_parent(pi.skip(k), c),
    decreases k,
{
    if k == 0 {
        assert(pi.skip(0) =~= pi);
    } else {
        lemma_find_parent_skip(pi.drop_first(), c, k - 1);
        assert(pi.drop_first().skip(k - 1) =~= pi.skip(k));
    }
}

/// Appending an entry leaves earlier children's parents unchanged and
/// registers the new child when it was absent.
proof fn lemma_find_parent_push(pi: Seq<(String, String)>, x: (String, String), c: Seq<char>)
    ensures
        find_parent(pi.push(x), c) == (match find_parent(pi, c) {
            Some(p) => Some(p),
            None => if x.0@ == c {
                Some(x.1@)
            } else {
                None
            },
        }),
    decreases pi.len(),
{
    if pi.len() == 0 {
        assert(pi.push(x).len() == 1);
        assert(pi.push(x)[0] == x);
        assert(pi.push(x).drop_first() =~= Seq::<(String, String)>::empty());
        if x.0@ == c {
            assert(find_parent(pi.push(x), c) == Some(x.1@));
        } else {
            assert(find_parent(pi.push(x), c) == find_parent(pi.push(x).drop_first(), c));
        }
    } else {
        assert(pi.push(x)[0] == pi[0]);
        assert(pi.push(x).drop_first() =~= pi.drop_first().push(x));
        lemma_find_parent_push(pi.drop_first(), x, c);
    }
}

/// A child the search does not find appears nowhere in the index.
proof fn lemma_find_parent_none(pi: Seq<(String, String)>, c: Seq<char>)
    requires
        find_parent(pi, c) is None,
    ensures
        forall|m: int| 0 <= m < pi.len() ==> (#[trigger] pi[m]).0@ != c,
    decreases pi.len(),
{
    if pi.len() > 0 {
        lemma_find_parent_none(pi.drop_first(), c);
        assert(forall|m: int|
            1 <= m < pi.len() ==> (#[trigger] pi[m]) == pi.drop_first()[m - 1]);
    }
}

/// Skipping entries whose key is not `p` shifts the found index.
proof fn lemma_find_children_skip(ci: Seq<(String, Vec<String>)>, p: Seq<char>, k: int)
    requires
        0 <= k <= ci.len(),
        forall|m: int| 0 <= m < k ==> (#[trigger] ci[m]).0@ != p,
    ensures
        find_children_idx(ci, p) == (match find_children_idx(ci.skip(k), p) {
            None => None,
            Some(i) => Some(i + k),
        }),
    decreases k,
{
    if k == 0 {
        assert(ci.skip(0) =~= ci);
    } else {
        lemma_find_children_skip(ci.drop_first(), p, k - 1);
        assert(ci.drop_first().skip(k - 1) =~= ci.skip(k));
    }
}

/// The found children entry carries the searched parent as its key.
proof fn lemma_find_children_props(ci: Seq<(String, Vec<String>)>, p: Seq<char>)
    ensures
        match find_children_idx(ci, p) {
            None => forall|m: int| 0 <= m < ci.len() ==> (#[trigger] ci[m]).0@ != p,
            Some(i) => 0 <= i < ci.len() && ci[i].0@ == p,
        },
    decreases ci.len(),
{
    if ci.len() > 0 && ci[0].0@ != p {
        lemma_find_children_props(ci.drop_first(), p);
        if find_children_idx(ci.drop_first(), p) is None {
            assert(forall|m: int|
                1 <= m < ci.len() ==> (#[trigger] ci[m]) == ci.drop_first()[m - 1]);
        }
    }
}

/// Appending an entry for a new parent leaves every earlier search alone.
proof fn lemma_find_children_push(ci: Seq<(String, Vec<String>)>, x: (String, Vec<String>), p: Seq<char>)
    ensures
        find_children_idx(ci.push(x), p) == (match find_children_idx(ci, p) {
            Some(i) => Some(i),
            None => if x.0@ == p {
                Some(ci.len() as int)
            } else {
                None
            },
        }),
    decreases ci.len(),
{
    if ci.len() == 0 {
        assert(ci.push(x).len() == 1);
        assert(ci.push(x)[0] == x);
        assert(ci.push(x).drop_first() =~= Seq::<(String, Vec<String>)>::empty());
        if x.0@ == p {
            assert(find_children_idx(ci.push(x), p) == Some(0int));
        } else {
            assert(find_children_idx(ci.push(x).drop_first(), p) is None);
        }
    } else {
        assert(ci.push(x)[0] == ci[0]);
        assert(ci.push(x).drop_first() =~= ci.drop_first().push(x));
        lemma_find_children_push(ci.drop_first(), x, p);
    }
}

/// Replacing an entry without changing its key leaves every search alone.
proof fn lemma_find_children_update(
    ci: Seq<(String, Vec<String>)>,
    k: int,
    x: (String, Vec<String>),
    p: Seq<char>,
)
    requires
        0 <= k < ci.len(),
        x.0@ == ci[k].0@,
    ensures
        find_children_idx(ci.update(k, x), p) == find_children_idx(ci, p),
    decreases ci.len(),
{
    if k == 0 {
        assert(ci.update(0, x)[0] == x);
        assert(ci.update(0, x).drop_first() =~= ci.drop_first());
    } else {
        assert(ci.update(k, x)[0] == ci[0]);
        assert(ci.update(k, x).drop_first() =~= ci.drop_first().update(k - 1, x));
        lemma_find_children_update(ci.drop_first(), k - 1, x, p);
    }
}

/// Skipping entries that are not the edge shifts the found index.
proof fn lemma_find_edge_skip(td: Seq<TfIndividualTransformChain>, p: Seq<char>, c: Seq<char>, k: int)
    requires
        0 <= k <= td.len(),
        forall|m: int| 0 <= m < k ==> !((#[trigger] td[m]).parent@ == p && td[m].child@ == c),
    ensures
        find_edge_idx(td, p, c) == (match find_edge_idx(td.skip(k), p, c) {
            None => None,
            Some(i) => Some(i + k),
        }),
    decreases k,
{
    if k == 0 {
        assert(td.skip(0) =~= td);
    } else {
        lemma_find_edge_skip(td.drop_first(), p, c, k - 1);
        assert(td.drop_first().skip(k - 1) =~= td.skip(k));
    }
}

/// The found history carries the searched edge key.
proof fn lemma_find_edge_props(td: Seq<TfIndividualTransformChain>, p: Seq<char>, c: Seq<char>)
    ensures
        match find_edge_idx(td, p, c) {
            None => forall|m: int|
                0 <= m < td.len() ==> !((#[trigger] td[m]).parent@ == p && td[m].child@ == c),
            Some(i) => 0 <= i < td.len() && td[i].parent@ == p && td[i].child@ == c,
        },
    decreases td.len(),
{
    if td.len() > 0 && !(td[0].parent@ == p && td[0].child@ == c) {
        lemma_find_edge_props(td.drop_first(), p, c);
        if find_edge_idx(td.drop_first(), p, c) is None {
            assert(forall|m: int|
                1 <= m < td.len() ==> (#[trigger] td[m]) == td.drop_first()[m - 1]);
        }
    }
}

/// Appending a history for a new edge leaves every earlier search alone.
proof fn lemma_find_edge_push(
    td: Seq<TfIndividualTransformChain>,
    x: TfIndividualTransformChain,
    p: Seq<char>,
    c: Seq<char>,
)
    ensures
        find_edge_idx(td.push(x), p, c) == (match find_edge_idx(td, p, c) {
            Some(i) => Some(i),
            None => if x.parent@ == p && x.child@ == c {
                Some(td.len() as int)
            } else {
                None
            },
        }),
    decreases td.len(),
{
    if td.len() == 0 {
        assert(td.push(x).len() == 1);
        assert(td.push(x)[0] == x);
        assert(td.push(x).drop_first() =~= Seq::<TfIndividualTransformChain>::empty());
        if x.parent@ == p && x.child@ == c {
            assert(find_edge_idx(td.push(x), p, c) == Some(0int));
        } else {
            assert(find_edge_idx(td.push(x).drop_first(), p, c) is None);
        }
    } else {
        assert(td.push(x)[0] == td[0]);
        assert(td.push(x).drop_first() =~= td.drop_first().push(x));
        lemma_find_edge_push(td.drop_first(), x, p, c);
    }
}

/// Replacing a history without changing its edge key leaves every search
/// alone.
proof fn lemma_find_edge_update(
    td: Seq<TfIndividualTransformChain>,
    k: int,
    x: TfIndividualTransformChain,
    p: Seq<char>,
    c: Seq<char>,
)
    requires
        0 <= k < td.len(),
        x.parent@ == td[k].parent@,
        x.child@ == td[k].child@,
    ensures
        find_edge_idx(td.update(k, x), p, c) == find_edge_idx(td, p, c),
    decreases td.len(),
{
    if k == 0 {
        assert(td.update(0, x)[0] == x);
        assert(td.update(0, x).drop_first() =~= td.drop_first());
    } else {
        assert(td.update(k, x)[0] == td[0]);
        assert(td.update(k, x).drop_first() =~= td.drop_first().update(k - 1, x));
        lemma_find_edge_update(td.drop_first(), k - 1, x, p, c);
    }
}

/// Record `child` under `parent` in the children index: append it to the
/// parent's list when absent, create the entry when the parent is new.
fn ci_add(ci: &mut Vec<(String, Vec<String>)>, parent: &String, child: &String)
    requires
        children_index_unique(old(ci)@),
    ensures
        children_index_unique(final(ci)@),
        child_listed(final(ci)@, parent@, child@),
        forall|pp: Seq<char>, cc: Seq<char>|
            !(pp == parent@ && cc == child@) ==> #[trigger] child_listed(final(ci)@, pp, cc)
                == child_listed(old(ci)@, pp, cc),
        match find_children_idx(old(ci)@, parent@) {
            Some(k) => {
                &&& final(ci)@.len() == old(ci)@.len()
                &&& forall|m: int| 0 <= m < old(ci)@.len() && m != k ==> final(ci)@[m] == old(
                    ci,
                )@[m]
                &&& final(ci)@[k].0 == old(ci)@[k].0
                &&& names_contain(old(ci)@[k].1@, child@) ==> final(ci)@[k] == old(ci)@[k]
                &&& !names_contain(old(ci)@[k].1@, child@) ==> final(ci)@[k].1@ == old(
                    ci,
                )@[k].1@.push(*child)
            },
            None => {
                &&& final(ci)@.len() == old(ci)@.len() + 1
                &&& forall|m: int| 0 <= m < old(ci)@.len() ==> final(ci)@[m] == old(ci)@[m]
                &&& final(ci)@.last().0 == *parent
                &&& final(ci)@.last().1@ == seq![*child]
            },
        },
{
    let ghost ci0 = ci@;
    let found = ci_find(ci, parent);
    proof {
        lemma_find_children_props(ci0, parent@);
    }
    match found {
        Some(k) => {
            let present = names_find(&ci[k].1, child);
            match present {
                Some(_) => {
                    proof {
                        assert(child_listed(ci@, parent@, child@));
                    }
                },
                None => {
                    let mut entry = ci.remove(k);
                    entry.1.push(child.clone());
                    ci.insert(k, entry);
                    proof {
                        assert(ci@ =~= ci0.update(
                            k as int,
                            (ci0[k as int].0, ci@[k as int].1),
                        ));
                        assert(ci@[k as int].1@ == ci0[k as int].1@.push(*child));
                        assert forall|pp: Seq<char>| #[trigger] find_children_idx(ci@, pp)
                            == find_children_idx(ci0, pp) by {
                            lemma_find_children_update(
                                ci0,
                                k as int,
                                (ci0[k as int].0, ci@[k as int].1),
                                pp,
                            );
                        }
                        assert(names_contain(ci@[k as int].1@, child@)) by {
                            assert(ci@[k as int].1@[ci0[k as int].1@.len() as int]@ == child@);
                        }
                        assert forall|pp: Seq<char>, cc: Seq<char>|
                            !(pp == parent@ && cc == child@) implies #[trigger] child_listed(
                            ci@,
                            pp,
                            cc,
                        ) == child_listed(ci0, pp, cc) by {
                            lemma_find_children_props(ci0, pp);
                            match find_children_idx(ci0, pp) {
                                None => {},
                                Some(m) => if m == k as int {
                                    assert(pp == parent@);
                                    assert(cc != child@);
                                    assert(names_contain(ci@[m].1@, cc) == names_contain(
                                        ci0[m].1@,
                                        cc,
                                    )) by {
                                        if names_contain(ci0[m].1@, cc) {
                                            let w = choose|w: int|
                                                0 <= w < ci0[m].1@.len() && ci0[m].1@[w]@ == cc;
                                            assert(ci@[m].1@[w]@ == cc);
                                        } else {
                                            if names_contain(ci@[m].1@, cc) {
                                                let w = choose|w: int|
                                                    0 <= w < ci@[m].1@.len() && ci@[m].1@[w]@
                                                        == cc;
                                                assert(w == ci0[m].1@.len());
                                                assert(ci@[m].1@[w]@ == child@);
                                            }
                                        }
                                    }
                                },
                            }
                        }
                    }
                },
            }
        },
        None => {
            let mut names: Vec<String> = Vec::new();
            names.push(child.clone());
            ci.push((parent.clone(), names));
            proof {
                assert(ci@ =~= ci0.push((*parent, ci@.last().1)));
                assert(ci@.last().1@ =~= seq![*child]);
                assert forall|pp: Seq<char>| #[trigger] find_children_idx(ci@, pp) == (
                match find_children_idx(ci0, pp) {
                    Some(i) => Some(i),
                    None => if pp == parent@ {
                        Some(ci0.len() as int)
                    } else {
                        None
                    },
                }) by {
                    lemma_find_children_push(ci0, (*parent, ci@.last().1), pp);
                }
                assert(names_contain(ci@.last().1@, child@)) by {
                    assert(ci@.last().1@[0]@ == child@);
                }
                assert forall|pp: Seq<char>, cc: Seq<char>|
                    !(pp == parent@ && cc == child@) implies #[trigger] child_listed(ci@, pp, cc)
                    == child_listed(ci0, pp, cc) by {
                    lemma_find_children_props(ci0, pp);
                    if pp == parent@ {
                        assert(find_children_idx(ci0, pp) is None);
                        assert(find_children_idx(ci@, pp) == Some(ci0.len() as int));
                        if names_contain(ci@[ci0.len() as int].1@, cc) {
                            let w = choose|w: int|
                                0 <= w < ci@[ci0.len() as int].1@.len() && ci@[ci0.len()
                                    as int].1@[w]@ == cc;
                            assert(ci@[ci0.len() as int].1@[w] == *child);
                        }
                        assert(!names_contain(ci@[ci0.len() as int].1@, cc));
                    }
                }
            }
        },
    }
}

impl TfBuffer {
    /// The state after a successful registration, relative to the state
    /// `pre` before it: the child registered under its parent in both
    /// indices, and the edge's history extended exactly as the per-edge
    /// insertion and retention rules say.
    pub open spec fn add_ok_post(self, pre: TfBuffer, transform: TransformStamped, is_static_tf: bool) -> bool {
        let c = transform.child_frame_id;
        let p = transform.header.frame_id;
        let e = ChainEntry {
            stamp: transform.header.stamp.spec_nanos() as i64,
            transform: transform.transform,
        };
        &&& self.parent_transform_index@ == (if find_parent(pre.parent_transform_index@, c@)
            is Some {
            pre.parent_transform_index@
        } else {
            pre.parent_transform_index@.push((c, p))
        })
        &&& find_parent(self.parent_transform_index@, c@) == Some(p@)
        &&& child_listed(self.child_transform_index@, p@, c@)
        &&& forall|pp: Seq<char>, cc: Seq<char>|
            !(pp == p@ && cc == c@) ==> #[trigger] child_listed(self.child_transform_index@, pp, cc)
                == child_listed(pre.child_transform_index@, pp, cc)
        &&& match find_edge_idx(pre.transform_data@, p@, c@) {
            Some(i) => {
                &&& self.transform_data@.len() == pre.transform_data@.len()
                &&& forall|k: int|
                    0 <= k < pre.transform_data@.len() && k != i ==> self.transform_data@[k]
                        == pre.transform_data@[k]
                &&& self.transform_data@[i].parent@ == p@
                &&& self.transform_data@[i].child@ == c@
                &&& self.transform_data@[i].kind == pre.transform_data@[i].kind
                &&& self.transform_data@[i].cache_duration == pre.transform_data@[i].cache_duration
                &&& pre.transform_data@[i].kind is Static ==> self.transform_data@[i].transform_chain@
                    == seq![ChainEntry { stamp: 0, transform: transform.transform }]
                &&& pre.transform_data@[i].kind is Dynamic ==> self.transform_data@[i].transform_chain@
                    == chain_evict(
                    chain_insert(pre.transform_data@[i].transform_chain@, e),
                    pre.transform_data@[i].cache_duration as int,
                )
            },
            None => {
                &&& self.transform_data@.len() == pre.transform_data@.len() + 1
                &&& forall|k: int|
                    0 <= k < pre.transform_data@.len() ==> self.transform_data@[k]
                        == pre.transform_data@[k]
                &&& self.transform_data@.last().parent@ == p@
                &&& self.transform_data@.last().child@ == c@
                &&& self.transform_data@.last().kind == (if is_static_tf {
                    EdgeKind::Static
                } else {
                    EdgeKind::Dynamic
                })
                &&& self.transform_data@.last().cache_duration == pre.cache_duration.nanos
                &&& self.transform_data@.last().transform_chain@ == (if is_static_tf {
                    seq![ChainEntry { stamp: 0, transform: transform.transform }]
                } else {
                    seq![e]
                })
            },
        }
    }

    /// Whether `transform` would give an already-registered child a
    /// different parent.
    pub open spec fn rejects_changing_parent(self, transform: TransformStamped) -> bool {
        match find_parent(self.parent_transform_index@, transform.child_frame_id@) {
            Some(pp) => pp != transform.header.frame_id@,
            None => false,
        }
    }

    /// Whether `transform` would reinsert on an existing edge with the
    /// opposite static-or-dynamic kind.
    pub open spec fn rejects_kind_conflict(self, transform: TransformStamped, is_static_tf: bool) -> bool {
        match find_edge_idx(
            self.transform_data@,
            transform.header.frame_id@,
            transform.child_frame_id@,
        ) {
            Some(i) => (self.transform_data@[i].kind is Static) != is_static_tf,
            None => false,
        }
    }

    /// Register one transform.
    ///
    /// Rejects a change of an existing child's parent and a reinsert whose
    /// static flag conflicts with the edge's pinned kind, leaving the
    /// buffer untouched in both cases. Otherwise registers the child under
    /// its parent in both indices and stores the sample in the edge's
    /// history, creating the edge on first use.
    pub fn add_transform(&mut self, transform: &TransformStamped, is_static_tf: bool) -> (r:
        Result<(), TfError>)
        requires
            old(self).wf(),
            transform.header.stamp.spec_nanos() <= MAX_STAMP_NANOS as int,
        ensures
            final(self).wf(),
            final(self).cache_duration == old(self).cache_duration,
            old(self).rejects_changing_parent(*transform) ==> (r matches Err(e)
                && e matches TfError::ChangingParent(cc, np, op) && cc@
                == transform.child_frame_id@ && np@ == transform.header.frame_id@ && Some(op@)
                == find_parent(old(self).parent_transform_index@, transform.child_frame_id@)
                && *final(self) == *old(self)),
            !old(self).rejects_changing_parent(*transform) && old(self).rejects_kind_conflict(
                *transform,
                is_static_tf,
            ) ==> (r matches Err(e) && e matches TfError::CouldNotFindTransform(f, t, _d) && f@
                == transform.header.frame_id@ && t@ == transform.child_frame_id@ && *final(self)
                == *old(self)),
            !old(self).rejects_changing_parent(*transform) && !old(self).rejects_kind_conflict(
                *transform,
                is_static_tf,
            ) ==> r is Ok && final(self).add_ok_post(*old(self), *transform, is_static_tf),
            forall|c: Seq<char>, p: Seq<char>|
                #![trigger find_parent(old(self).parent_transform_index@, c), has_edge(old(self).transform_data@, p, c)]
                find_parent(old(self).parent_transform_index@, c) == Some(p) && has_edge(
                    old(self).transform_data@,
                    p,
                    c,
                ) ==> find_parent(final(self).parent_transform_index@, c) == Some(p) && has_edge(
                    final(self).transform_data@,
                    p,
                    c,
                ),
    {
        let ghost pre = *old(self);
        let parent: &String = &transform.header.frame_id;
        let child: &String = &transform.child_frame_id;

        let existing = pi_find(&self.parent_transform_index, child);
        match existing {
            Some(k) => {
                if !(self.parent_transform_index[k].1 == *parent) {
                    return Err(
                        TfError::ChangingParent(
                            child.clone(),
                            parent.clone(),
                            self.parent_transform_index[k].1.clone(),
                        ),
                    );
                }
            },
            None => {},
        }
        let eidx = td_find(&self.transform_data, parent, child);
        match eidx {
            Some(i) => {
                proof {
                    lemma_find_edge_props(self.transform_data@, parent@, child@);
                }
                if self.transform_data[i].is_static() != is_static_tf {
                    return Err(
                        TfError::CouldNotFindTransform(
                            parent.clone(),
                            child.clone(),
                            "an edge between these frames exists but its static or dynamic kind does not match".to_owned(),
                        ),
                    );
                }
            },
            None => {},
        }

        // Both checks passed: register the child and store the sample.
        let ghost pi0 = self.parent_transform_index@;
        if existing.is_none() {
            self.parent_transform_index.push((child.clone(), parent.clone()));
            proof {
                lemma_find_parent_none(pi0, child@);
            }
        }
        proof {
            if existing is None {
                assert forall|q: Seq<char>| #[trigger] find_parent(
                    self.parent_transform_index@,
                    q,
                ) == (match find_parent(pi0, q) {
                    Some(pp) => Some(pp),
                    None => if q == child@ {
                        Some(parent@)
                    } else {
                        None
                    },
                }) by {
                    lemma_find_parent_push(pi0, (*child, *parent), q);
                }
                assert(parent_index_unique(self.parent_transform_index@)) by {
                    assert(forall|m: int|
                        0 <= m < pi0.len() ==> (#[trigger] pi0[m]).0@ != child@);
                    assert(forall|m: int|
                        0 <= m < pi0.len() ==> self.parent_transform_index@[m] == pi0[m]);
                }
            }
            assert(find_parent(self.parent_transform_index@, child@) == Some(parent@));
        }

        ci_add(&mut self.child_transform_index, parent, child);

        let ghost td0 = self.transform_data@;
        match eidx {
            Some(i) => {
                let mut ch = self.transform_data.remove(i);
                ch.add_to_buffer(transform);
                self.transform_data.insert(i, ch);
                proof {
                    assert(self.transform_data@ =~= td0.update(
                        i as int,
                        self.transform_data@[i as int],
                    ));
                }
            },
            None => {
                let mut ch = TfIndividualTransformChain::new(
                    parent.clone(),
                    child.clone(),
                    is_static_tf,
                    self.cache_duration,
                );
                ch.add_to_buffer(transform);
                self.transform_data.push(ch);
            },
        }

        proof {
            let c = transform.child_frame_id@;
            let p = transform.header.frame_id@;
            let pi1 = self.parent_transform_index@;
            let td1 = self.transform_data@;
            let ci1 = self.child_transform_index@;
            let e = ChainEntry {
                stamp: transform.header.stamp.spec_nanos() as i64,
                transform: transform.transform,
            };

            // How searches in the updated parent index relate to the old one.
            assert forall|q: Seq<char>| #[trigger] find_parent(pi1, q) == (
            match find_parent(pi0, q) {
                Some(pp) => Some(pp),
                None => if q == c {
                    Some(p)
                } else {
                    None
                },
            }) by {
                if existing is None {
                    lemma_find_parent_push(pi0, (*child, *parent), q);
                }
            }

            // How searches in the updated edge data relate to the old one.
            assert forall|q1: Seq<char>, q2: Seq<char>| #[trigger] find_edge_idx(td1, q1, q2)
                == (match find_edge_idx(td0, q1, q2) {
                Some(i) => Some(i),
                None => if eidx is None && q1 == p && q2 == c {
                    Some(td0.len() as int)
                } else {
                    None
                },
            }) by {
                match eidx {
                    Some(i) => {
                        lemma_find_edge_update(td0, i as int, td1[i as int], q1, q2);
                    },
                    None => {
                        lemma_find_edge_push(td0, td1.last(), q1, q2);
                        lemma_find_edge_props(td0, q1, q2);
                    },
                }
            }

            // Edge keys are unchanged (or one fresh key was appended).
            assert(edges_unique(td1)) by {
                match eidx {
                    Some(i) => {
                        assert(forall|m: int|
                            0 <= m < td1.len() ==> (#[trigger] td1[m]).parent@ == td0[m].parent@
                                && td1[m].child@ == td0[m].child@);
                    },
                    None => {
                        lemma_find_edge_props(td0, p, c);
                        assert(forall|m: int|
                            0 <= m < td0.len() ==> (#[trigger] td1[m]) == td0[m]);
                    },
                }
            }

            // Every history is well-formed, non-empty, and agrees with the
            // parent index.
            assert forall|k: int| 0 <= k < td1.len() implies {
                let ch = #[trigger] td1[k];
                &&& ch.wf()
                &&& ch.transform_chain@.len() >= 1
                &&& find_parent(pi1, ch.child@) == Some(ch.parent@)
            } by {
                let ch = td1[k];
                if k < td0.len() && (eidx is None || k != eidx.unwrap() as int) {
                    assert(ch == td0[k]);
                    assert(find_parent(pi0, ch.child@) == Some(ch.parent@));
                } else {
                    assert(ch.parent@ == p && ch.child@ == c);
                    assert(find_parent(pi1, c) == Some(p));
                }
            }

            // Every registered child still has its edge.
            assert forall|k: int| 0 <= k < pi1.len() implies has_edge(
                td1,
                (#[trigger] pi1[k]).1@,
                pi1[k].0@,
            ) by {
                if k < pi0.len() {
                    assert(pi1[k] == pi0[k]);
                    assert(has_edge(td0, pi0[k].1@, pi0[k].0@));
                } else {
                    assert(pi1[k] == (*child, *parent));
                }
            }

            // Every registered child is listed under its parent.
            assert forall|k: int| 0 <= k < pi1.len() implies child_listed(
                ci1,
                (#[trigger] pi1[k]).1@,
                pi1[k].0@,
            ) by {
                if k < pi0.len() {
                    assert(pi1[k] == pi0[k]);
                    assert(child_listed(pre.child_transform_index@, pi0[k].1@, pi0[k].0@));
                    if !(pi0[k].1@ == p && pi0[k].0@ == c) {
                        assert(child_listed(ci1, pi0[k].1@, pi0[k].0@) == child_listed(
                            pre.child_transform_index@,
                            pi0[k].1@,
                            pi0[k].0@,
                        ));
                    }
                } else {
                    assert(pi1[k] == (*child, *parent));
                }
            }

            // Every listed child points back at its parent.
            let ci0 = pre.child_transform_index@;
            lemma_find_children_props(ci0, p);
            assert forall|k: int, j: int|
                0 <= k < ci1.len() && 0 <= j < ci1[k].1@.len() implies #[trigger] find_parent(
                pi1,
                ci1[k].1@[j]@,
            ) == Some(ci1[k].0@) by {
                match find_children_idx(ci0, p) {
                    Some(kk) => {
                        if k != kk {
                            assert(ci1[k] == ci0[k]);
                            assert(find_parent(pi0, ci0[k].1@[j]@) == Some(ci0[k].0@));
                        } else {
                            assert(ci0[kk].0@ == p);
                            if names_contain(ci0[kk].1@, c) {
                                assert(ci1[k] == ci0[k]);
                                assert(find_parent(pi0, ci0[k].1@[j]@) == Some(ci0[k].0@));
                            } else {
                                assert(ci1[k].1@ == ci0[k].1@.push(*child));
                                if j < ci0[k].1@.len() {
                                    assert(ci1[k].1@[j] == ci0[k].1@[j]);
                                    assert(find_parent(pi0, ci0[k].1@[j]@) == Some(ci0[k].0@));
                                } else {
                                    assert(ci1[k].1@[j] == *child);
                                    assert(find_parent(pi1, c) == Some(p));
                                }
                            }
                        }
                    },
                    None => {
                        if k < ci0.len() {
                            assert(ci1[k] == ci0[k]);
                            assert(find_parent(pi0, ci0[k].1@[j]@) == Some(ci0[k].0@));
                        } else {
                            assert(ci1[k].0 == *parent);
                            assert(ci1[k].1@ == seq![*child]);
                            assert(ci1[k].1@[j] == *child);
                            assert(find_parent(pi1, c) == Some(p));
                        }
                    },
                }
            }

            // The freshly created history holds exactly the new sample.
            if eidx is None {
                if !is_static_tf {
                    assert(chain_insert(Seq::<ChainEntry>::empty(), e) =~= seq![e]);
                    assert(chain_evict(seq![e], pre.cache_duration.nanos as int) =~= seq![e]);
                }
            }

            // lifecycle: registered links persist across the registration
            assert(self.add_ok_post(pre, *transform, is_static_tf));
            assert forall|cq: Seq<char>, pq: Seq<char>|
                find_parent(pre.parent_transform_index@, cq) == Some(pq) && has_edge(
                    pre.transform_data@,
                    pq,
                    cq,
                ) implies find_parent(self.parent_transform_index@, cq) == Some(pq) && has_edge(
                self.transform_data@,
                pq,
                cq,
            ) by {
                lemma_add_preserves_links(pre, *self, *transform, is_static_tf, cq, pq);
            }
        }
        Ok(())
    }
}

/// A complete walk up the tree: starts at `start`, each frame's registered
/// parent is the next frame, ends at a frame with no parent, and never
/// visits a frame twice.
pub open spec fn complete_walk(pi: Seq<(String, String)>, w: Seq<String>, start: Seq<char>) -> bool {
    &&& w.len() >= 1
    &&& w[0]@ == start
    &&& forall|i: int|
        0 <= i < w.len() - 1 ==> find_parent(pi, (#[trigger] w[i])@) == Some(w[i + 1]@)
    &&& find_parent(pi, w.last()@) is None
    &&& forall|i: int, j: int| 0 <= i < j < w.len() ==> w[i]@ != w[j]@
}

/// A walk up the tree that returns to a frame it already visited.
pub open spec fn looping_walk(pi: Seq<(String, String)>, w: Seq<String>, start: Seq<char>) -> bool {
    &&& w.len() >= 2
    &&& w[0]@ == start
    &&& forall|i: int|
        0 <= i < w.len() - 1 ==> find_parent(pi, (#[trigger] w[i])@) == Some(w[i + 1]@)
    &&& forall|i: int, j: int| 0 <= i < j < w.len() - 1 ==> w[i]@ != w[j]@
    &&& exists|j: int| 0 <= j < w.len() - 1 && w[j]@ == w.last()@
}

/// A faithful copy of the child-to-parent index, name for name.
pub open spec fn snapshot_matches(snap: Seq<(String, String)>, pi: Seq<(String, String)>) -> bool {
    &&& snap.len() == pi.len()
    &&& forall|i: int|
        0 <= i < snap.len() ==> (#[trigger] snap[i]).0@ == pi[i].0@ && snap[i].1@ == pi[i].1@
}

/// A found parent comes from some entry of the index.
proof fn lemma_find_parent_some(pi: Seq<(String, String)>, c: Seq<char>)
    ensures
        match find_parent(pi, c) {
            Some(p) => exists|k: int|
                0 <= k < pi.len() && (#[trigger] pi[k]).0@ == c && pi[k].1@ == p,
            None => true,
        },
    decreases pi.len(),
{
    if pi.len() > 0 && pi[0].0@ != c {
        lemma_find_parent_some(pi.drop_first(), c);
        match find_parent(pi.drop_first(), c) {
            Some(p) => {
                let k = choose|k: int|
                    0 <= k < pi.drop_first().len() && (#[trigger] pi.drop_first()[k]).0@ == c
                        && pi.drop_first()[k].1@ == p;
                assert(pi[k + 1] == pi.drop_first()[k]);
            },
            None => {},
        }
    }
}

/// Distinct frames that all have parents cannot outnumber the entries of
/// the child-to-parent index.
proof fn lemma_walk_length_bound(pi: Seq<(String, String)>, w: Seq<String>)
    requires
        forall|i: int, j: int| 0 <= i < j < w.len() ==> w[i]@ != w[j]@,
        forall|i: int| 0 <= i < w.len() ==> find_parent(pi, (#[trigger] w[i])@) is Some,
    ensures
        w.len() <= pi.len(),
{
    broadcast use vstd::seq_lib::seq_to_set_is_finite;

    let views = Seq::new(w.len(), |i: int| w[i]@);
    let keys = Seq::new(pi.len(), |i: int| pi[i].0@);
    assert(views.no_duplicates()) by {
        assert forall|i: int, j: int|
            0 <= i < views.len() && 0 <= j < views.len() && i != j implies views[i]
            != views[j] by {
            if i < j {
                assert(w[i]@ != w[j]@);
            } else {
                assert(w[j]@ != w[i]@);
            }
        }
    }
    views.unique_seq_to_set();
    assert(views.to_set().subset_of(keys.to_set())) by {
        assert forall|v: Seq<char>| views.to_set().contains(v) implies keys.to_set().contains(
            v,
        ) by {
            let i = choose|i: int| 0 <= i < views.len() && views[i] == v;
            assert(find_parent(pi, w[i]@) is Some);
            lemma_find_parent_some(pi, v);
            let k = choose|k: int| 0 <= k < pi.len() && (#[trigger] pi[k]).0@ == v;
            assert(keys[k] == v);
            assert(keys.contains(v));
        }
    }
    vstd::set_lib::lemma_len_subset(views.to_set(), keys.to_set());
    keys.lemma_cardinality_of_set();
}

/// Copy the child-to-parent index, name for name.
fn clone_string_pairs(pi: &Vec<(String, String)>) -> (r: Vec<(String, String)>)
    ensures
        snapshot_matches(r@, pi@),
{
    let mut out: Vec<(String, String)> = Vec::new();
    let mut i: usize = 0;
    while i < pi.len()
        invariant
            i <= pi@.len(),
            out@.len() == i,
            forall|m: int|
                0 <= m < i ==> (#[trigger] out@[m]).0@ == pi@[m].0@ && out@[m].1@ == pi@[m].1@,
        decreases pi@.len() - i,
    {
        out.push((pi[i].0.clone(), pi[i].1.clone()));
        i = i + 1;
    }
    out
}

impl TfBuffer {
    /// Walk from `frame` straight up until a frame has no parent.
    ///
    /// Yields the visited frames in order, `frame` first and the root
    /// last; reports a loop as soon as the walk would revisit a frame,
    /// carrying a snapshot of the child-to-parent index.
    pub fn get_path_to_root(&self, frame: &str) -> (r: Result<Vec<String>, TfError>)
        requires
            self.wf(),
        ensures
            r matches Ok(path) ==> complete_walk(self.parent_transform_index@, path@, frame@),
            r matches Err(e) ==> (e matches TfError::LoopDetected(f, snap) && f@ == frame@
                && snapshot_matches(snap@, self.parent_transform_index@) && exists|w: Seq<String>|
                looping_walk(self.parent_transform_index@, w, frame@)),
    {
        let mut path: Vec<String> = Vec::new();
        path.push(frame.to_owned());
        loop
            invariant
                self.wf(),
                path@.len() >= 1,
                path@[0]@ == frame@,
                forall|i: int|
                    0 <= i < path@.len() - 1 ==> find_parent(
                        self.parent_transform_index@,
                        (#[trigger] path@[i])@,
                    ) == Some(path@[i + 1]@),
                forall|i: int, j: int| 0 <= i < j < path@.len() ==> path@[i]@ != path@[j]@,
                path@.len() <= self.parent_transform_index@.len() + 1,
            decreases self.parent_transform_index@.len() + 1 - path@.len(),
        {
            let last_idx = path.len() - 1;
            let found = pi_find(&self.parent_transform_index, &path[last_idx]);
            match found {
                None => {
                    return Ok(path);
                },
                Some(k) => {
                    let next = self.parent_transform_index[k].1.clone();
                    match names_find(&path, &next) {
                        Some(j) => {
                            proof {
                                let w = path@.push(next);
                                assert(w.last() == next);
                                assert(forall|i: int|
                                    0 <= i < w.len() - 1 ==> w[i] == path@[i]);
                                assert(w[j as int]@ == next@);
                                assert(looping_walk(
                                    self.parent_transform_index@,
                                    w,
                                    frame@,
                                ));
                            }
                            let snap = clone_string_pairs(&self.parent_transform_index);
                            return Err(TfError::LoopDetected(frame.to_owned(), snap));
                        },
                        None => {
                            proof {
                                lemma_walk_length_bound(self.parent_transform_index@, path@);
                            }
                            path.push(next);
                        },
                    }
                },
            }
        }
    }

    /// The root of the tree that the first registered parent belongs to.
    pub fn get_root(&self) -> (r: Result<String, TfError>)
        requires
            self.wf(),
        ensures
            self.child_transform_index@.len() == 0 ==> (r matches Err(e) && e is EmptyTree),
            r matches Ok(root) ==> exists|w: Seq<String>|
                complete_walk(
                    self.parent_transform_index@,
                    w,
                    self.child_transform_index@[0].0@,
                ) && w.last()@ == root@,
            self.child_transform_index@.len() > 0 ==> (match r {
                Ok(_) => true,
                Err(e) => e matches TfError::LoopDetected(f, snap) && f@
                    == self.child_transform_index@[0].0@ && snapshot_matches(
                    snap@,
                    self.parent_transform_index@,
                ) && exists|w: Seq<String>|
                    looping_walk(self.parent_transform_index@, w, f@),
            }),
    {
        if self.child_transform_index.len() == 0 {
            return Err(TfError::EmptyTree);
        }
        let start: &String = &self.child_transform_index[0].0;
        let lineage = match self.get_path_to_root(start.as_str()) {
            Ok(w) => w,
            Err(e) => {
                return Err(e);
            },
        };
        proof {
            assert(lineage@.len() >= 1);
        }
        let root = lineage[lineage.len() - 1].clone();
        proof {
            assert(complete_walk(self.parent_transform_index@, lineage@, start@));
            assert(lineage@.last()@ == root@);
        }
        Ok(root)
    }
}

/// The two frames of one hop of a resolved path name a stored edge in one
/// direction or the other.
pub open spec fn hop_linked(td: Seq<TfIndividualTransformChain>, f0: String, f1: String) -> bool {
    has_edge(td, f0@, f1@) || has_edge(td, f1@, f0@)
}

/// The history a hop from `f0` to `f1` reads: the forward edge where it is
/// stored, otherwise the reverse edge.
pub open spec fn hop_chain(
    td: Seq<TfIndividualTransformChain>,
    f0: String,
    f1: String,
) -> TfIndividualTransformChain {
    if has_edge(td, f0@, f1@) {
        edge_at(td, f0@, f1@)
    } else {
        edge_at(td, f1@, f0@)
    }
}

/// Whether the hop traverses its stored edge against the stored direction.
pub open spec fn hop_inverted(td: Seq<TfIndividualTransformChain>, f0: String, f1: String) -> bool {
    !has_edge(td, f0@, f1@)
}

/// One resolved step: the stored edge it names, its direction, and a value
/// that the edge's point-query contract pins at this stamp.
pub open spec fn hop_spec(
    td: Seq<TfIndividualTransformChain>,
    f0: String,
    f1: String,
    stamp: Option<Time>,
    step: TransformStep,
) -> bool {
    let ch = hop_chain(td, f0, f1);
    &&& step.inverted == hop_inverted(td, f0, f1)
    &&& step.parent@ == ch.parent@
    &&& step.child@ == ch.child@
    &&& ch.get_spec(stamp, Ok(step.value))
}

/// A hop whose edge cannot answer at this stamp, yielding this error.
pub open spec fn hop_err(
    td: Seq<TfIndividualTransformChain>,
    f0: String,
    f1: String,
    stamp: Option<Time>,
    e: TfError,
) -> bool {
    hop_chain(td, f0, f1).get_spec(stamp, Err(e))
}

/// Whether a hop's edge has no data at this stamp.
pub open spec fn hop_out_of_range(
    td: Seq<TfIndividualTransformChain>,
    f0: String,
    f1: String,
    stamp: Option<Time>,
) -> bool {
    hop_chain(td, f0, f1).out_of_range(stamp)
}

/// The minimum, over the dynamic hops of a path, of each hop's latest
/// stored stamp; `None` when every hop is static.
pub open spec fn path_min_latest(td: Seq<TfIndividualTransformChain>, path: Seq<String>) -> Option<
    int,
>
    decreases path.len(),
{
    if path.len() <= 1 {
        None
    } else {
        let ch = hop_chain(td, path[0], path[1]);
        let rest = path_min_latest(td, path.drop_first());
        if ch.kind is Static {
            rest
        } else {
            match rest {
                None => Some(ch.spec_last_stamp()),
                Some(m) => if ch.spec_last_stamp() < m {
                    Some(ch.spec_last_stamp())
                } else {
                    Some(m)
                },
            }
        }
    }
}

/// A resolved path joins the from-side walk, up to the lowest common
/// ancestor, with the to-side walk reversed; the ancestor is the first
/// frame of the to-side walk that the from-side walk visits.
pub open spec fn lca_joined_at(
    w_from: Seq<String>,
    w_to: Seq<String>,
    path: Seq<String>,
    jf: int,
    jt: int,
) -> bool {
    &&& 0 <= jf < w_from.len()
    &&& 0 <= jt < w_to.len()
    &&& w_from[jf]@ == w_to[jt]@
    &&& forall|m: int| 0 <= m < jt ==> !names_contain(w_from, (#[trigger] w_to[m])@)
    &&& path.len() == jf + 1 + jt
    &&& forall|i: int| 0 <= i <= jf ==> (#[trigger] path[i])@ == w_from[i]@
    &&& forall|i: int| 0 <= i < jt ==> (#[trigger] path[jf + 1 + i])@ == w_to[jt - 1 - i]@
}

/// See [`lca_joined_at`], with the split points existential.
pub open spec fn lca_joined(w_from: Seq<String>, w_to: Seq<String>, path: Seq<String>) -> bool {
    exists|jf: int, jt: int| lca_joined_at(w_from, w_to, path, jf, jt)
}

/// Scan the to-side walk for the first frame the from-side walk visits.
fn find_lca(w_from: &Vec<String>, w_to: &Vec<String>) -> (r: Option<(usize, usize)>)
    ensures
        match r {
            Some(pair) => pair.0 < w_from@.len() && pair.1 < w_to@.len()
                && w_from@[pair.0 as int]@ == w_to@[pair.1 as int]@ && (forall|m: int|
                0 <= m < pair.1 ==> !names_contain(w_from@, (#[trigger] w_to@[m])@)),
            None => forall|m: int|
                0 <= m < w_to@.len() ==> !names_contain(w_from@, (#[trigger] w_to@[m])@),
        },
{
    let mut jt: usize = 0;
    while jt < w_to.len()
        invariant
            jt <= w_to@.len(),
            forall|m: int| 0 <= m < jt ==> !names_contain(w_from@, (#[trigger] w_to@[m])@),
        decreases w_to@.len() - jt,
    {
        match names_find(w_from, &w_to[jt]) {
            Some(jf) => {
                return Some((jf, jt));
            },
            None => {
                jt = jt + 1;
            },
        }
    }
    None
}

/// Properties of a path joined at the lowest common ancestor: endpoints,
/// and each adjacent pair linked by a registered parent in one direction.
#[verifier::spinoff_prover]
proof fn lemma_joined_path_props(
    pi: Seq<(String, String)>,
    w_from: Seq<String>,
    w_to: Seq<String>,
    path: Seq<String>,
    jf: int,
    jt: int,
)
    requires
        w_from.len() >= 1,
        w_to.len() >= 1,
        forall|i: int|
            0 <= i < w_from.len() - 1 ==> find_parent(pi, (#[trigger] w_from[i])@) == Some(
                w_from[i + 1]@,
            ),
        forall|i: int|
            0 <= i < w_to.len() - 1 ==> find_parent(pi, (#[trigger] w_to[i])@) == Some(
                w_to[i + 1]@,
            ),
        lca_joined_at(w_from, w_to, path, jf, jt),
    ensures
        path.len() >= 1,
        path[0]@ == w_from[0]@,
        path.last()@ == w_to[0]@,
        forall|i2: int|
            0 <= i2 < path.len() - 1 ==> find_parent(pi, (#[trigger] path[i2])@) == Some(
                path[i2 + 1]@,
            ) || find_parent(pi, path[i2 + 1]@) == Some(path[i2]@),
{
    assert(path[0]@ == w_from[0]@);
    if jt > 0 {
        assert(path[jf + 1 + (jt - 1)]@ == w_to[jt - 1 - (jt - 1)]@);
        assert(path.len() - 1 == jf + 1 + (jt - 1));
        assert(path.last()@ == w_to[0]@);
    } else {
        assert(path.last()@ == w_from[jf]@);
        assert(w_from[jf]@ == w_to[0]@);
    }
    assert forall|i2: int| 0 <= i2 < path.len() - 1 implies find_parent(
        pi,
        (#[trigger] path[i2])@,
    ) == Some(path[i2 + 1]@) || find_parent(pi, path[i2 + 1]@) == Some(path[i2]@) by {
        if i2 < jf {
            assert(path[i2]@ == w_from[i2]@);
            assert(path[i2 + 1]@ == w_from[i2 + 1]@);
            assert(find_parent(pi, w_from[i2]@) == Some(w_from[i2 + 1]@));
        } else if i2 == jf {
            if jt > 0 {
                assert(path[jf + 1 + 0]@ == w_to[jt - 1 - 0]@);
                assert(path[i2 + 1]@ == w_to[jt - 1]@);
                assert(find_parent(pi, w_to[jt - 1]@) == Some(w_to[jt]@));
                assert(w_to[jt]@ == w_from[jf]@);
            }
        } else {
            let m = i2 - jf - 1;
            assert(path[jf + 1 + m]@ == w_to[jt - 1 - m]@);
            assert(path[jf + 1 + (m + 1)]@ == w_to[jt - 1 - (m + 1)]@);
            assert(path[i2]@ == w_to[jt - 1 - m]@);
            assert(path[i2 + 1]@ == w_to[jt - 2 - m]@);
            assert(find_parent(pi, w_to[jt - 2 - m]@) == Some(w_to[jt - 1 - m]@));
        }
    }
}

impl TfBuffer {
    /// `path` is the resolved route between the two frames: both walks to
    /// the root exist and `path` joins them at their lowest common
    /// ancestor.
    pub open spec fn walks_join_spec(
        self,
        from: Seq<char>,
        to: Seq<char>,
        path: Seq<String>,
        w_from: Seq<String>,
        w_to: Seq<String>,
    ) -> bool {
        &&& complete_walk(self.parent_transform_index@, w_from, from)
        &&& complete_walk(self.parent_transform_index@, w_to, to)
        &&& lca_joined(w_from, w_to, path)
    }

    pub open spec fn resolved_path_spec(self, from: Seq<char>, to: Seq<char>, path: Seq<String>) -> bool {
        exists|w_from: Seq<String>, w_to: Seq<String>|
            self.walks_join_spec(from, to, path, w_from, w_to)
    }

    /// The stamp a lookup evaluates its hops at: the caller's stamp when
    /// given, otherwise the most recent stamp every dynamic hop can serve;
    /// `None` when no stamp was given and every hop is static.
    pub open spec fn effective_stamp(self, path: Seq<String>, stamp: Option<Time>) -> Option<Time> {
        match stamp {
            Some(s) => Some(s),
            None => match path_min_latest(self.transform_data@, path) {
                Some(m) => Some(
                    Time {
                        secs: (m / (NANOS_PER_SEC as int)) as u32,
                        nsecs: (m % (NANOS_PER_SEC as int)) as u32,
                    },
                ),
                None => None,
            },
        }
    }

    /// What a successful lookup returns. Equal frames yield the identity
    /// plan stamped with the query stamp (or zero). Otherwise there is a
    /// resolved path whose hops the plan mirrors step for step at the
    /// effective stamp, which also stamps the plan (zero when no stamp was
    /// given and every hop is static).
    pub open spec fn plan_spec(self, from: Seq<char>, to: Seq<char>, stamp: Option<Time>, plan: TransformPlan) -> bool {
        &&& plan.frame_id@ == from
        &&& plan.child_frame_id@ == to
        &&& if from == to {
            &&& plan.steps@.len() == 0
            &&& plan.stamp == (match stamp {
                Some(s) => s,
                None => Time { secs: 0, nsecs: 0 },
            })
        } else {
            exists|path: Seq<String>| #[trigger] self.plan_path_spec(from, to, stamp, plan, path)
        }
    }

    /// See [`Self::plan_spec`]: the per-path content of a successful
    /// lookup.
    pub open spec fn plan_path_spec(self, from: Seq<char>, to: Seq<char>, stamp: Option<Time>, plan: TransformPlan, path: Seq<String>) -> bool {
        &&& self.resolved_path_spec(from, to, path)
        &&& plan.steps@.len() == path.len() - 1
        &&& (forall|i: int|
            0 <= i < plan.steps@.len() ==> hop_spec(
                self.transform_data@,
                path[i],
                path[i + 1],
                self.effective_stamp(path, stamp),
                #[trigger] plan.steps@[i],
            ))
        &&& plan.stamp == (match self.effective_stamp(path, stamp) {
            Some(t) => t,
            None => Time { secs: 0, nsecs: 0 },
        })
    }

    /// When a lookup fails: a loop on either side's walk to the root, two
    /// root walks that share no frame, or a resolved path one of whose
    /// hops has no data at the effective stamp while every earlier hop
    /// does.
    /// The resolution failures: a loop on either side's walk to the root,
    /// or two root walks that share no frame.
    pub open spec fn resolve_err_spec(self, from: Seq<char>, to: Seq<char>, e: TfError) -> bool {
        ||| (match e {
            TfError::LoopDetected(f, snap) => (f@ == from || f@ == to) && snapshot_matches(
                snap@,
                self.parent_transform_index@,
            ) && exists|w: Seq<String>| looping_walk(self.parent_transform_index@, w, f@),
            _ => false,
        })
        ||| (match e {
            TfError::CouldNotFindTransform(a, b, _detail) => a@ == from && b@ == to && exists|
                w_from: Seq<String>,
                w_to: Seq<String>,
            |
                {
                    &&& complete_walk(self.parent_transform_index@, w_from, from)
                    &&& complete_walk(self.parent_transform_index@, w_to, to)
                    &&& forall|m: int|
                        0 <= m < w_to.len() ==> !names_contain(w_from, (#[trigger] w_to[m])@)
                },
            _ => false,
        })
    }

    /// When a lookup fails: a resolution failure, or a resolved path one
    /// of whose hops has no data at the effective stamp while every
    /// earlier hop does.
    pub open spec fn lookup_err_spec(self, from: Seq<char>, to: Seq<char>, stamp: Option<Time>, e: TfError) -> bool {
        ||| self.resolve_err_spec(from, to, e)
        ||| exists|path: Seq<String>|
            {
                &&& #[trigger] self.resolved_path_spec(from, to, path)
                &&& exists|i: int|
                    #![trigger path[i]]
                    {
                        &&& 0 <= i < path.len() - 1
                        &&& hop_err(
                            self.transform_data@,
                            path[i],
                            path[i + 1],
                            self.effective_stamp(path, stamp),
                            e,
                        )
                        &&& forall|m: int|
                            0 <= m < i ==> !hop_out_of_range(
                                self.transform_data@,
                                #[trigger] path[m],
                                path[m + 1],
                                self.effective_stamp(path, stamp),
                            )
                    }
            }
    }

    /// Resolve the route between two frames through their lowest common
    /// ancestor: the from-side lineage up to the ancestor, then the
    /// to-side lineage back down, endpoints included.
    #[verifier::rlimit(100)]
    pub fn retrieve_transform_path(&self, from: &str, to: &str) -> (r: Result<Vec<String>, TfError>)
        requires
            self.wf(),
        ensures
            r matches Ok(path) ==> {
                &&& self.resolved_path_spec(from@, to@, path@)
                &&& path@.len() >= 1
                &&& path@[0]@ == from@
                &&& path@.last()@ == to@
                &&& forall|i: int|
                    0 <= i < path@.len() - 1 ==> find_parent(
                        self.parent_transform_index@,
                        (#[trigger] path@[i])@,
                    ) == Some(path@[i + 1]@) || find_parent(
                        self.parent_transform_index@,
                        path@[i + 1]@,
                    ) == Some(path@[i]@)
            },
            r matches Err(e) ==> self.resolve_err_spec(from@, to@, e),
    {
        let w_from = match self.get_path_to_root(from) {
            Ok(w) => w,
            Err(e) => {
                return Err(e);
            },
        };
        let w_to = match self.get_path_to_root(to) {
            Ok(w) => w,
            Err(e) => {
                return Err(e);
            },
        };

        match find_lca(&w_from, &w_to) {
            Some((jf, jt)) => {
                // Found the lowest common ancestor; join the two legs.
                let mut path: Vec<String> = Vec::new();
                let mut i: usize = 0;
                while i < jf
                    invariant
                        jf < w_from@.len(),
                        i <= jf,
                        path@.len() == i,
                        forall|m: int| 0 <= m < i ==> (#[trigger] path@[m])@ == w_from@[m]@,
                    decreases jf - i,
                {
                    path.push(w_from[i].clone());
                    i = i + 1;
                }
                path.push(w_from[jf].clone());
                let mut k: usize = 0;
                while k < jt
                    invariant
                        jf < w_from@.len(),
                        jt < w_to@.len(),
                        k <= jt,
                        path@.len() == jf + 1 + k,
                        forall|m: int| 0 <= m <= jf ==> (#[trigger] path@[m])@ == w_from@[m]@,
                        forall|m: int|
                            0 <= m < k ==> (#[trigger] path@[jf + 1 + m])@ == w_to@[jt - 1 - m]@,
                    decreases jt - k,
                {
                    path.push(w_to[jt - 1 - k].clone());
                    k = k + 1;
                }
                proof {
                    assert(lca_joined_at(w_from@, w_to@, path@, jf as int, jt as int));
                    assert(lca_joined(w_from@, w_to@, path@));
                    assert(self.walks_join_spec(from@, to@, path@, w_from@, w_to@));
                    assert(self.resolved_path_spec(from@, to@, path@));
                    lemma_joined_path_props(
                        self.parent_transform_index@,
                        w_from@,
                        w_to@,
                        path@,
                        jf as int,
                        jt as int,
                    );
                }
                return Ok(path);
            },
            None => {},
        }
        Err(
            TfError::CouldNotFindTransform(
                from.to_owned(),
                to.to_owned(),
                "disconnected trees, no common parent".to_owned(),
            ),
        )
    }
}

/// A registered parent link always has its stored edge.
proof fn lemma_parent_implies_edge(b: TfBuffer, c: Seq<char>)
    requires
        b.wf(),
    ensures
        match find_parent(b.parent_transform_index@, c) {
            Some(p) => has_edge(b.transform_data@, p, c),
            None => true,
        },
{
    lemma_find_parent_some(b.parent_transform_index@, c);
    match find_parent(b.parent_transform_index@, c) {
        Some(p) => {
            let k = choose|k: int|
                {
                    &&& 0 <= k < b.parent_transform_index@.len()
                    &&& (#[trigger] b.parent_transform_index@[k]).0@ == c
                    &&& b.parent_transform_index@[k].1@ == p
                };
            assert(has_edge(
                b.transform_data@,
                b.parent_transform_index@[k].1@,
                b.parent_transform_index@[k].0@,
            ));
        },
        None => {},
    }
}

impl TfBuffer {
    /// Locate the history one hop reads, and whether the hop runs against
    /// the stored direction.
    fn find_hop_chain(&self, f0: &String, f1: &String) -> (r: (usize, bool))
        requires
            self.wf(),
            hop_linked(self.transform_data@, *f0, *f1),
        ensures
            r.0 < self.transform_data@.len(),
            r.1 == hop_inverted(self.transform_data@, *f0, *f1),
            self.transform_data@[r.0 as int] == hop_chain(self.transform_data@, *f0, *f1),
    {
        match td_find(&self.transform_data, f0, f1) {
            Some(k) => {
                proof {
                    lemma_find_edge_props(self.transform_data@, f0@, f1@);
                }
                (k, false)
            },
            None => {
                match td_find(&self.transform_data, f1, f0) {
                    Some(k) => {
                        proof {
                            lemma_find_edge_props(self.transform_data@, f1@, f0@);
                        }
                        (k, true)
                    },
                    None => {
                        proof {
                            assert(false);
                        }
                        (0, true)
                    },
                }
            },
        }
    }

    /// Resolve every hop of a path at one stamp, in path order, stopping
    /// at the first hop whose edge has no data there.
    fn get_tf_list(&self, path: &Vec<String>, stamp: Option<Time>) -> (r: Result<
        Vec<TransformStep>,
        TfError,
    >)
        requires
            self.wf(),
            path@.len() >= 1,
            forall|i: int|
                0 <= i < path@.len() - 1 ==> hop_linked(
                    self.transform_data@,
                    #[trigger] path@[i],
                    path@[i + 1],
                ),
        ensures
            r matches Ok(steps) ==> {
                &&& steps@.len() == path@.len() - 1
                &&& forall|i: int|
                    0 <= i < steps@.len() ==> hop_spec(
                        self.transform_data@,
                        path@[i],
                        path@[i + 1],
                        stamp,
                        #[trigger] steps@[i],
                    )
            },
            r matches Err(e) ==> exists|i: int|
                #![trigger path@[i]]
                {
                    &&& 0 <= i < path@.len() - 1
                    &&& hop_err(self.transform_data@, path@[i], path@[i + 1], stamp, e)
                    &&& forall|m: int|
                        0 <= m < i ==> !hop_out_of_range(
                            self.transform_data@,
                            #[trigger] path@[m],
                            path@[m + 1],
                            stamp,
                        )
                },
    {
        let mut steps: Vec<TransformStep> = Vec::new();
        let mut i: usize = 0;
        while i < path.len() - 1
            invariant
                self.wf(),
                path@.len() >= 1,
                forall|m: int|
                    0 <= m < path@.len() - 1 ==> hop_linked(
                        self.transform_data@,
                        #[trigger] path@[m],
                        path@[m + 1],
                    ),
                i <= path@.len() - 1,
                steps@.len() == i,
                forall|m: int|
                    0 <= m < i ==> hop_spec(
                        self.transform_data@,
                        path@[m],
                        path@[m + 1],
                        stamp,
                        #[trigger] steps@[m],
                    ),
                forall|m: int|
                    0 <= m < i ==> !hop_out_of_range(
                        self.transform_data@,
                        #[trigger] path@[m],
                        path@[m + 1],
                        stamp,
                    ),
            decreases path@.len() - 1 - i,
        {
            let hop = self.find_hop_chain(&path[i], &path[i + 1]);
            let k = hop.0;
            let inverted = hop.1;
            match self.transform_data[k].get_closest_transform(stamp) {
                Ok(v) => {
                    let step = TransformStep {
                        parent: self.transform_data[k].parent.clone(),
                        child: self.transform_data[k].child.clone(),
                        inverted,
                        value: v,
                    };
                    steps.push(step);
                },
                Err(e) => {
                    return Err(e);
                },
            }
            i = i + 1;
        }
        Ok(steps)
    }

    /// First pass of a most-recent lookup: the minimum over dynamic hops
    /// of each hop's latest stored stamp.
    fn min_latest_stamp(&self, path: &Vec<String>) -> (r: Option<Duration>)
        requires
            self.wf(),
            path@.len() >= 1,
            forall|i: int|
                0 <= i < path@.len() - 1 ==> hop_linked(
                    self.transform_data@,
                    #[trigger] path@[i],
                    path@[i + 1],
                ),
        ensures
            match r {
                Some(d) => path_min_latest(self.transform_data@, path@) == Some(d.nanos as int)
                    && 0 <= d.nanos <= MAX_STAMP_NANOS,
                None => path_min_latest(self.transform_data@, path@) is None,
            },
    {
        let mut acc: Option<Duration> = None;
        let mut i: usize = path.len() - 1;
        proof {
            assert(path@.skip(i as int).len() <= 1);
        }
        while i > 0
            invariant
                self.wf(),
                path@.len() >= 1,
                forall|m: int|
                    0 <= m < path@.len() - 1 ==> hop_linked(
                        self.transform_data@,
                        #[trigger] path@[m],
                        path@[m + 1],
                    ),
                i <= path@.len() - 1,
                match acc {
                    Some(d) => path_min_latest(self.transform_data@, path@.skip(i as int))
                        == Some(d.nanos as int) && 0 <= d.nanos <= MAX_STAMP_NANOS,
                    None => path_min_latest(self.transform_data@, path@.skip(i as int)) is None,
                },
            decreases i,
        {
            i = i - 1;
            let ghost suffix = path@.skip(i as int);
            let hop = self.find_hop_chain(&path[i], &path[i + 1]);
            let k = hop.0;
            let ghost prev = acc;
            let is_static_hop = self.transform_data[k].is_static();
            if !is_static_hop {
                match self.transform_data[k].newest_stamp() {
                    Some(d) => {
                        proof {
                            assert(
                                self.transform_data@[k as int].transform_chain@[self.transform_data@[k as int].transform_chain@.len()
                                    - 1].stamp <= MAX_STAMP_NANOS);
                        }
                        acc = match acc {
                            None => Some(d),
                            Some(a) => if d.nanos < a.nanos {
                                Some(d)
                            } else {
                                Some(a)
                            },
                        };
                    },
                    None => {
                        proof {
                            assert(false);
                        }
                    },
                }
            }
            proof {
                assert(suffix[0] == path@[i as int]);
                assert(suffix[1] == path@[i as int + 1]);
                assert(suffix.drop_first() =~= path@.skip(i as int + 1));
            }
        }
        proof {
            assert(path@.skip(0) =~= path@);
        }
        acc
    }

    /// Look up the transform from one frame to another at a given stamp,
    /// or at the most recent coherent stamp when none is given.
    ///
    /// Equal frames yield the identity plan. Otherwise the result mirrors
    /// the resolved path hop for hop at the effective stamp; see
    /// [`Self::plan_spec`] and [`Self::lookup_err_spec`].
    #[verifier::rlimit(60)]
    pub fn lookup_transform(&self, from: &str, to: &str, stamp: Option<Time>) -> (r: Result<
        TransformPlan,
        TfError,
    >)
        requires
            self.wf(),
        ensures
            r matches Ok(plan) ==> self.plan_spec(from@, to@, stamp, plan),
            r matches Err(e) ==> self.lookup_err_spec(from@, to@, stamp, e),
            from@ == to@ ==> r is Ok,
    {
        let from_s: String = from.to_owned();
        let to_s: String = to.to_owned();
        if from_s == to_s {
            let plan = TransformPlan {
                frame_id: from_s,
                child_frame_id: to_s,
                stamp: match stamp {
                    Some(s) => s,
                    None => Time { secs: 0, nsecs: 0 },
                },
                steps: Vec::new(),
            };
            return Ok(plan);
        }
        let path = match self.retrieve_transform_path(from, to) {
            Ok(p) => p,
            Err(e) => {
                return Err(e);
            },
        };
        proof {
            assert forall|i: int| 0 <= i < path@.len() - 1 implies hop_linked(
                self.transform_data@,
                #[trigger] path@[i],
                path@[i + 1],
            ) by {
                lemma_parent_implies_edge(*self, path@[i]@);
                lemma_parent_implies_edge(*self, path@[i + 1]@);
            }
        }
        let eff: Option<Time> = match stamp {
            Some(s) => Some(s),
            None => match self.min_latest_stamp(&path) {
                Some(d) => Some(stamp_of_nanos(d.nanos)),
                None => None,
            },
        };
        proof {
            assert(eff == self.effective_stamp(path@, stamp));
        }
        let steps = match self.get_tf_list(&path, eff) {
            Ok(s) => s,
            Err(e) => {
                proof {
                    assert(self.resolved_path_spec(from@, to@, path@));
                    assert(self.lookup_err_spec(from@, to@, stamp, e));
                }
                return Err(e);
            },
        };
        let plan_stamp: Time = match eff {
            Some(t) => t,
            None => Time { secs: 0, nsecs: 0 },
        };
        let plan = TransformPlan {
            frame_id: from_s,
            child_frame_id: to_s,
            stamp: plan_stamp,
            steps,
        };
        proof {
            assert(self.plan_path_spec(from@, to@, stamp, plan, path@));
            assert(self.plan_spec(from@, to@, stamp, plan));
        }
        Ok(plan)
    }
}

/// The steps of a plan reversed, each flipped to run the other way.
pub open spec fn flip_steps(s: Seq<TransformStep>) -> Seq<TransformStep> {
    Seq::new(
        s.len(),
        |i: int|
            TransformStep {
                parent: s[s.len() - 1 - i].parent,
                child: s[s.len() - 1 - i].child,
                inverted: !s[s.len() - 1 - i].inverted,
                value: s[s.len() - 1 - i].value,
            },
    )
}

/// Registered links survive a successful registration of another sample.
proof fn lemma_add_preserves_links(
    pre: TfBuffer,
    post: TfBuffer,
    transform: TransformStamped,
    is_static: bool,
    c: Seq<char>,
    p: Seq<char>,
)
    requires
        post.add_ok_post(pre, transform, is_static),
        find_parent(pre.parent_transform_index@, c) == Some(p),
        has_edge(pre.transform_data@, p, c),
    ensures
        find_parent(post.parent_transform_index@, c) == Some(p),
        has_edge(post.transform_data@, p, c),
{
    if find_parent(pre.parent_transform_index@, transform.child_frame_id@) is None {
        lemma_find_parent_push(
            pre.parent_transform_index@,
            (transform.child_frame_id, transform.header.frame_id),
            c,
        );
    }
    match find_edge_idx(
        pre.transform_data@,
        transform.header.frame_id@,
        transform.child_frame_id@,
    ) {
        Some(i) => {
            lemma_find_edge_props(pre.transform_data@, transform.header.frame_id@, transform.child_frame_id@);
            assert(post.transform_data@ =~= pre.transform_data@.update(
                i,
                post.transform_data@[i],
            ));
            lemma_find_edge_update(pre.transform_data@, i, post.transform_data@[i], p, c);
        },
        None => {
            assert(post.transform_data@ =~= pre.transform_data@.push(
                post.transform_data@.last(),
            ));
            lemma_find_edge_push(pre.transform_data@, post.transform_data@.last(), p, c);
        },
    }
}

/// The buffer states along an in-order application of the first `upto`
/// transforms of a batch: every applied transform is accepted, and each
/// state follows from the previous one by the registration postcondition.
pub open spec fn applied_in_order(
    states: Seq<TfBuffer>,
    msgs: Seq<TransformStamped>,
    is_static: bool,
    upto: int,
) -> bool {
    &&& 0 <= upto <= msgs.len()
    &&& states.len() == upto + 1
    &&& forall|i: int|
        0 <= i < upto ==> {
            &&& !(#[trigger] states[i]).rejects_changing_parent(msgs[i])
            &&& !states[i].rejects_kind_conflict(msgs[i], is_static)
            &&& states[i + 1].add_ok_post(states[i], msgs[i], is_static)
        }
}

/// The rejection that registering `t` on buffer `b` reports: a genuine
/// parent change carrying the prior parent, or a genuine kind conflict.
pub open spec fn rejection_error(b: TfBuffer, t: TransformStamped, is_static: bool, e: TfError) -> bool {
    if b.rejects_changing_parent(t) {
        &&& e matches TfError::ChangingParent(cc, np, op)
        &&& cc@ == t.child_frame_id@
        &&& np@ == t.header.frame_id@
        &&& Some(op@) == find_parent(b.parent_transform_index@, t.child_frame_id@)
    } else if b.rejects_kind_conflict(t, is_static) {
        &&& e matches TfError::CouldNotFindTransform(a, c, _d)
        &&& a@ == t.header.frame_id@
        &&& c@ == t.child_frame_id@
    } else {
        false
    }
}

/// One message of a batch applied: either in full with no error, or up to
/// its first rejected transform, reporting that rejection.
pub open spec fn batch_step(
    pre: TfBuffer,
    post: TfBuffer,
    tfm: TFMessage,
    is_static: bool,
    outcome: Option<TfError>,
) -> bool {
    match outcome {
        None => exists|states: Seq<TfBuffer>|
            {
                &&& #[trigger] applied_in_order(
                    states,
                    tfm.transforms@,
                    is_static,
                    tfm.transforms@.len() as int,
                )
                &&& states[0] == pre
                &&& states.last() == post
            },
        Some(e) => exists|states: Seq<TfBuffer>, i: int|
            {
                &&& 0 <= i < tfm.transforms@.len()
                &&& #[trigger] applied_in_order(states, tfm.transforms@, is_static, i)
                &&& states[0] == pre
                &&& states.last() == post
                &&& rejection_error(post, tfm.transforms@[i], is_static, e)
            },
    }
}

/// The errors of a run of per-message outcomes, in order.
pub open spec fn collect_errs(outcomes: Seq<Option<TfError>>) -> Seq<TfError>
    decreases outcomes.len(),
{
    if outcomes.len() == 0 {
        Seq::empty()
    } else {
        match outcomes[0] {
            None => collect_errs(outcomes.drop_first()),
            Some(e) => seq![e] + collect_errs(outcomes.drop_first()),
        }
    }
}

/// Appending an outcome appends its error, if it carries one.
proof fn lemma_collect_errs_push(outcomes: Seq<Option<TfError>>, o: Option<TfError>)
    ensures
        collect_errs(outcomes.push(o)) == collect_errs(outcomes) + (match o {
            None => Seq::<TfError>::empty(),
            Some(e) => seq![e],
        }),
    decreases outcomes.len(),
{
    let tail = (match o {
        None => Seq::<TfError>::empty(),
        Some(e) => seq![e],
    });
    if outcomes.len() == 0 {
        assert(outcomes.push(o).len() == 1);
        assert(outcomes.push(o)[0] == o);
        assert(outcomes.push(o).drop_first() =~= Seq::<Option<TfError>>::empty());
        assert(collect_errs(outcomes.push(o).drop_first()) =~= Seq::<TfError>::empty());
        assert(collect_errs(outcomes) =~= Seq::<TfError>::empty());
        match o {
            None => {
                assert(collect_errs(outcomes.push(o)) =~= collect_errs(outcomes) + tail);
            },
            Some(e) => {
                assert(collect_errs(outcomes.push(o)) == seq![e] + collect_errs(
                    outcomes.push(o).drop_first(),
                ));
                assert(collect_errs(outcomes.push(o)) =~= collect_errs(outcomes) + tail);
            },
        }
    } else {
        assert(outcomes.push(o)[0] == outcomes[0]);
        assert(outcomes.push(o).drop_first() =~= outcomes.drop_first().push(o));
        lemma_collect_errs_push(outcomes.drop_first(), o);
        match outcomes[0] {
            None => {},
            Some(e0) => {
                assert(seq![e0] + (collect_errs(outcomes.drop_first()) + tail) =~= (seq![e0]
                    + collect_errs(outcomes.drop_first())) + tail);
            },
        }
    }
}

impl TfBuffer {
    /// A successful registration links the message's own child and parent.
    proof fn lemma_add_establishes_link(pre: TfBuffer, post: TfBuffer, transform: TransformStamped, is_static: bool)
        requires
            post.add_ok_post(pre, transform, is_static),
        ensures
            find_parent(post.parent_transform_index@, transform.child_frame_id@) == Some(
                transform.header.frame_id@,
            ),
            has_edge(post.transform_data@, transform.header.frame_id@, transform.child_frame_id@),
    {
        match find_edge_idx(
            pre.transform_data@,
            transform.header.frame_id@,
            transform.child_frame_id@,
        ) {
            Some(i) => {
                lemma_find_edge_props(
                    pre.transform_data@,
                    transform.header.frame_id@,
                    transform.child_frame_id@,
                );
                assert(post.transform_data@ =~= pre.transform_data@.update(
                    i,
                    post.transform_data@[i],
                ));
                lemma_find_edge_update(
                    pre.transform_data@,
                    i,
                    post.transform_data@[i],
                    transform.header.frame_id@,
                    transform.child_frame_id@,
                );
            },
            None => {
                assert(post.transform_data@ =~= pre.transform_data@.push(
                    post.transform_data@.last(),
                ));
                lemma_find_edge_push(
                    pre.transform_data@,
                    post.transform_data@.last(),
                    transform.header.frame_id@,
                    transform.child_frame_id@,
                );
            },
        }
    }

    /// Feed a whole inbound batch into the buffer, in message order.
    ///
    /// Either every transform is accepted and registered, in order, or
    /// exactly the prefix before the first genuinely rejected transform
    /// is, and that rejection comes back; so success is owed whenever no
    /// transform rejects.
    pub fn handle_incoming_transforms(&mut self, transforms: TFMessage, is_static: bool) -> (r:
        Result<(), TfError>)
        requires
            old(self).wf(),
            forall|i: int|
                0 <= i < transforms.transforms@.len() ==> (#[trigger] transforms.transforms@[i]).header.stamp.spec_nanos()
                    <= MAX_STAMP_NANOS as int,
        ensures
            final(self).wf(),
            final(self).cache_duration == old(self).cache_duration,
            r is Ok ==> forall|i: int|
                0 <= i < transforms.transforms@.len() ==> {
                    let m = #[trigger] transforms.transforms@[i];
                    &&& find_parent(final(self).parent_transform_index@, m.child_frame_id@)
                        == Some(m.header.frame_id@)
                    &&& has_edge(
                        final(self).transform_data@,
                        m.header.frame_id@,
                        m.child_frame_id@,
                    )
                },
            r is Ok ==> exists|states: Seq<TfBuffer>|
                {
                    &&& #[trigger] applied_in_order(
                        states,
                        transforms.transforms@,
                        is_static,
                        transforms.transforms@.len() as int,
                    )
                    &&& states[0] == *old(self)
                    &&& states.last() == *final(self)
                },
            r matches Err(e) ==> exists|states: Seq<TfBuffer>, i: int|
                {
                    &&& 0 <= i < transforms.transforms@.len()
                    &&& #[trigger] applied_in_order(states, transforms.transforms@, is_static, i)
                    &&& states[0] == *old(self)
                    &&& states.last() == *final(self)
                    &&& rejection_error(
                        states.last(),
                        transforms.transforms@[i],
                        is_static,
                        e,
                    )
                },
            forall|c: Seq<char>, p: Seq<char>|
                #![trigger find_parent(old(self).parent_transform_index@, c), has_edge(old(self).transform_data@, p, c)]
                find_parent(old(self).parent_transform_index@, c) == Some(p) && has_edge(
                    old(self).transform_data@,
                    p,
                    c,
                ) ==> find_parent(final(self).parent_transform_index@, c) == Some(p) && has_edge(
                    final(self).transform_data@,
                    p,
                    c,
                ),
    {
        let ghost mut states: Seq<TfBuffer> = seq![*old(self)];
        let mut j: usize = 0;
        while j < transforms.transforms.len()
            invariant
                self.wf(),
                self.cache_duration == old(self).cache_duration,
                j <= transforms.transforms@.len(),
                states.len() == j + 1,
                states[0] == *old(self),
                states.last() == *self,
                applied_in_order(states, transforms.transforms@, is_static, j as int),
                forall|i: int|
                    0 <= i < transforms.transforms@.len()
                        ==> (#[trigger] transforms.transforms@[i]).header.stamp.spec_nanos()
                        <= MAX_STAMP_NANOS as int,
                forall|i: int|
                    0 <= i < j ==> {
                        let m = #[trigger] transforms.transforms@[i];
                        &&& find_parent(self.parent_transform_index@, m.child_frame_id@) == Some(
                            m.header.frame_id@,
                        )
                        &&& has_edge(self.transform_data@, m.header.frame_id@, m.child_frame_id@)
                    },
                forall|c: Seq<char>, p: Seq<char>|
                    #![trigger find_parent(old(self).parent_transform_index@, c), has_edge(old(self).transform_data@, p, c)]
                    find_parent(old(self).parent_transform_index@, c) == Some(p) && has_edge(
                        old(self).transform_data@,
                        p,
                        c,
                    ) ==> find_parent(self.parent_transform_index@, c) == Some(p) && has_edge(
                        self.transform_data@,
                        p,
                        c,
                    ),
            decreases transforms.transforms@.len() - j,
        {
            let ghost pre = *self;
            let msg = &transforms.transforms[j];
            match self.add_transform(msg, is_static) {
                Ok(_) => {
                    proof {
                        let ghost prev = states;
                        states = states.push(*self);
                        assert(forall|i: int| 0 <= i <= j ==> states[i] == prev[i]);
                        assert(applied_in_order(
                            states,
                            transforms.transforms@,
                            is_static,
                            j + 1 as int,
                        ));
                        TfBuffer::lemma_add_establishes_link(pre, *self, *msg, is_static);
                        assert forall|i: int| 0 <= i < j implies {
                            let m = #[trigger] transforms.transforms@[i];
                            &&& find_parent(self.parent_transform_index@, m.child_frame_id@)
                                == Some(m.header.frame_id@)
                            &&& has_edge(
                                self.transform_data@,
                                m.header.frame_id@,
                                m.child_frame_id@,
                            )
                        } by {
                            lemma_add_preserves_links(
                                pre,
                                *self,
                                *msg,
                                is_static,
                                transforms.transforms@[i].child_frame_id@,
                                transforms.transforms@[i].header.frame_id@,
                            );
                        }
                    }
                },
                Err(e) => {
                    proof {
                        assert(states.last() == pre);
                        assert(rejection_error(
                            pre,
                            transforms.transforms@[j as int],
                            is_static,
                            e,
                        ));
                    }
                    return Err(e);
                },
            }
            j = j + 1;
        }
        Ok(())
    }

    /// Apply a batch of inbound messages in order, as the listener's
    /// writer does, collecting per-message failures and carrying on: each
    /// message is applied in full, or up to its first rejected transform,
    /// and `errs` holds exactly the rejections, in message order.
    pub fn handle_message_batch(&mut self, msgs: Vec<(TFMessage, bool)>) -> (errs: Vec<TfError>)
        requires
            old(self).wf(),
            forall|i: int, j: int|
                0 <= i < msgs@.len() && 0 <= j < (#[trigger] msgs@[i]).0.transforms@.len()
                    ==> (#[trigger] msgs@[i].0.transforms@[j]).header.stamp.spec_nanos()
                    <= MAX_STAMP_NANOS as int,
        ensures
            final(self).wf(),
            final(self).cache_duration == old(self).cache_duration,
            forall|c: Seq<char>, p: Seq<char>|
                #![trigger find_parent(old(self).parent_transform_index@, c), has_edge(old(self).transform_data@, p, c)]
                find_parent(old(self).parent_transform_index@, c) == Some(p) && has_edge(
                    old(self).transform_data@,
                    p,
                    c,
                ) ==> find_parent(final(self).parent_transform_index@, c) == Some(p) && has_edge(
                    final(self).transform_data@,
                    p,
                    c,
                ),
            exists|states: Seq<TfBuffer>, outcomes: Seq<Option<TfError>>|
                {
                    &&& states.len() == msgs@.len() + 1
                    &&& outcomes.len() == msgs@.len()
                    &&& states[0] == *old(self)
                    &&& states.last() == *final(self)
                    &&& (forall|i: int|
                        0 <= i < msgs@.len() ==> #[trigger] batch_step(
                            states[i],
                            states[i + 1],
                            msgs@[i].0,
                            msgs@[i].1,
                            outcomes[i],
                        ))
                    &&& errs@ == collect_errs(outcomes)
                },
    {
        let ghost all = msgs@;
        let mut msgs = msgs;
        let mut errs: Vec<TfError> = Vec::new();
        let ghost mut states: Seq<TfBuffer> = seq![*old(self)];
        let ghost mut outcomes: Seq<Option<TfError>> = Seq::empty();
        proof {
            assert(msgs@ =~= all.skip(0));
            assert(collect_errs(outcomes) =~= Seq::<TfError>::empty());
        }
        while msgs.len() > 0
            invariant
                self.wf(),
                self.cache_duration == old(self).cache_duration,
                msgs@.len() <= all.len(),
                msgs@ == all.skip(all.len() - msgs@.len()),
                states.len() == all.len() - msgs@.len() + 1,
                outcomes.len() == all.len() - msgs@.len(),
                states[0] == *old(self),
                states.last() == *self,
                forall|i: int|
                    0 <= i < outcomes.len() ==> #[trigger] batch_step(
                        states[i],
                        states[i + 1],
                        all[i].0,
                        all[i].1,
                        outcomes[i],
                    ),
                errs@ == collect_errs(outcomes),
                forall|i: int, j: int|
                    0 <= i < msgs@.len() && 0 <= j < (#[trigger] msgs@[i]).0.transforms@.len()
                        ==> (#[trigger] msgs@[i].0.transforms@[j]).header.stamp.spec_nanos()
                        <= MAX_STAMP_NANOS as int,
                forall|c: Seq<char>, p: Seq<char>|
                    #![trigger find_parent(old(self).parent_transform_index@, c), has_edge(old(self).transform_data@, p, c)]
                    find_parent(old(self).parent_transform_index@, c) == Some(p) && has_edge(
                        old(self).transform_data@,
                        p,
                        c,
                    ) ==> find_parent(self.parent_transform_index@, c) == Some(p) && has_edge(
                        self.transform_data@,
                        p,
                        c,
                    ),
            decreases msgs@.len(),
        {
            let ghost before = msgs@;
            let ghost pos = all.len() - before.len();
            let entry = msgs.remove(0);
            proof {
                assert(msgs@ =~= before.drop_first());
                assert(before[0] == all.skip(pos)[0]);
                assert(all.skip(pos)[0] == all[pos]);
                assert(msgs@ =~= all.skip(pos + 1));
                assert(forall|i: int|
                    0 <= i < msgs@.len() ==> (#[trigger] msgs@[i]) == before[i + 1]);
            }
            let (tfm, is_static) = entry;
            let ghost gtfm = tfm;
            proof {
                assert(all[pos].0 == gtfm);
                assert(all[pos].1 == is_static);
            }
            let ghost pre = *self;
            let ghost prev_states = states;
            let ghost prev_outcomes = outcomes;
            let ghost prev_errs = errs@;
            match self.handle_incoming_transforms(tfm, is_static) {
                Ok(_) => {
                    proof {
                        assert(batch_step(pre, *self, gtfm, is_static, None::<TfError>));
                        states = states.push(*self);
                        outcomes = outcomes.push(None);
                        lemma_collect_errs_push(prev_outcomes, None);
                        assert(collect_errs(outcomes) =~= collect_errs(prev_outcomes));
                    }
                },
                Err(e) => {
                    proof {
                        assert(batch_step(pre, *self, gtfm, is_static, Some(e)));
                        states = states.push(*self);
                        outcomes = outcomes.push(Some(e));
                        lemma_collect_errs_push(prev_outcomes, Some(e));
                    }
                    errs.push(e);
                    proof {
                        assert(errs@ =~= prev_errs.push(e));
                        assert(collect_errs(outcomes) =~= prev_errs.push(e));
                    }
                },
            }
            proof {
                assert(forall|i: int| 0 <= i <= pos ==> states[i] == prev_states[i]);
                assert(states[pos] == pre);
                assert(states[pos + 1] == *self);
                assert forall|i: int| 0 <= i < outcomes.len() implies #[trigger] batch_step(
                    states[i],
                    states[i + 1],
                    all[i].0,
                    all[i].1,
                    outcomes[i],
                ) by {
                    if i < pos {
                        assert(outcomes[i] == prev_outcomes[i]);
                        assert(batch_step(
                            prev_states[i],
                            prev_states[i + 1],
                            all[i].0,
                            all[i].1,
                            prev_outcomes[i],
                        ));
                    }
                }
            }
        }
        proof {
            assert(msgs@.len() == 0);
            assert(all.skip(all.len() - 0int) =~= Seq::<(TFMessage, bool)>::empty());
        }
        errs
    }

    /// A copy of the parent-to-children index, name for name.
    pub fn get_parent_to_children(&self) -> (r: Vec<(String, Vec<String>)>)
        ensures
            r@.len() == self.child_transform_index@.len(),
            forall|i: int|
                0 <= i < r@.len() ==> (#[trigger] r@[i]).0@ == self.child_transform_index@[i].0@
                    && r@[i].1@.len() == self.child_transform_index@[i].1@.len(),
            forall|i: int, j: int|
                0 <= i < r@.len() && 0 <= j < r@[i].1@.len() ==> (#[trigger] r@[i].1@[j])@
                    == self.child_transform_index@[i].1@[j]@,
    {
        let mut out: Vec<(String, Vec<String>)> = Vec::new();
        let mut i: usize = 0;
        while i < self.child_transform_index.len()
            invariant
                i <= self.child_transform_index@.len(),
                out@.len() == i,
                forall|m: int|
                    0 <= m < i ==> (#[trigger] out@[m]).0@ == self.child_transform_index@[m].0@
                        && out@[m].1@.len() == self.child_transform_index@[m].1@.len(),
                forall|m: int, j: int|
                    0 <= m < i && 0 <= j < out@[m].1@.len() ==> (#[trigger] out@[m].1@[j])@
                        == self.child_transform_index@[m].1@[j]@,
            decreases self.child_transform_index@.len() - i,
        {
            let names = clone_names(&self.child_transform_index[i].1);
            out.push((self.child_transform_index[i].0.clone(), names));
            i = i + 1;
        }
        out
    }

    /// The stored history for the directed edge `parent -> child`, if any.
    pub fn get_edge_chain(&self, parent: &str, child: &str) -> (r: Option<
        &TfIndividualTransformChain,
    >)
        ensures
            match r {
                Some(ch) => has_edge(self.transform_data@, parent@, child@) && *ch == edge_at(
                    self.transform_data@,
                    parent@,
                    child@,
                ),
                None => !has_edge(self.transform_data@, parent@, child@),
            },
    {
        let p: String = parent.to_owned();
        let c: String = child.to_owned();
        match td_find(&self.transform_data, &p, &c) {
            Some(k) => {
                proof {
                    lemma_find_edge_props(self.transform_data@, parent@, child@);
                }
                Some(&self.transform_data[k])
            },
            None => None,
        }
    }

    /// Look up two snapshots of the graph through a fixed frame: where a
    /// point seen from `from` at `time1` sits relative to `to` at `time2`,
    /// assuming the fixed frame rigid across the interval. The plan is the
    /// `to`-side plan followed by the `from`-side plan reversed.
    pub fn lookup_transform_with_time_travel(
        &self,
        to: &str,
        time2: Time,
        from: &str,
        time1: Time,
        fixed_frame: &str,
    ) -> (r: Result<TransformPlan, TfError>)
        requires
            self.wf(),
        ensures
            r matches Ok(plan) ==> exists|p1: TransformPlan, p2: TransformPlan|
                {
                    &&& #[trigger] self.plan_spec(from@, fixed_frame@, Some(time1), p1)
                    &&& #[trigger] self.plan_spec(to@, fixed_frame@, Some(time2), p2)
                    &&& plan.frame_id@ == from@
                    &&& plan.child_frame_id@ == to@
                    &&& plan.stamp == time1
                    &&& plan.steps@ == p2.steps@ + flip_steps(p1.steps@)
                },
            r matches Err(e) ==> self.lookup_err_spec(from@, fixed_frame@, Some(time1), e)
                || self.lookup_err_spec(to@, fixed_frame@, Some(time2), e),
    {
        let tf1 = match self.lookup_transform(from, fixed_frame, Some(time1)) {
            Ok(p) => p,
            Err(e) => {
                return Err(e);
            },
        };
        let tf2 = match self.lookup_transform(to, fixed_frame, Some(time2)) {
            Ok(p) => p,
            Err(e) => {
                return Err(e);
            },
        };
        let ghost g1 = tf1;
        let ghost g2 = tf2;
        let mut steps = tf2.steps;
        let n1 = tf1.steps.len();
        let mut k: usize = 0;
        while k < n1
            invariant
                n1 == g1.steps@.len(),
                tf1.steps@ == g1.steps@,
                k <= n1,
                steps@.len() == g2.steps@.len() + k,
                forall|m: int| 0 <= m < g2.steps@.len() ==> #[trigger] steps@[m] == g2.steps@[m],
                forall|m: int|
                    0 <= m < k ==> #[trigger] steps@[g2.steps@.len() + m] == flip_steps(
                        g1.steps@,
                    )[m],
            decreases n1 - k,
        {
            let idx = n1 - 1 - k;
            let flipped = TransformStep {
                parent: tf1.steps[idx].parent.clone(),
                child: tf1.steps[idx].child.clone(),
                inverted: !tf1.steps[idx].inverted,
                value: tf1.steps[idx].value,
            };
            steps.push(flipped);
            k = k + 1;
        }
        let plan = TransformPlan {
            frame_id: from.to_owned(),
            child_frame_id: to.to_owned(),
            stamp: time1,
            steps,
        };
        proof {
            assert forall|x: int| 0 <= x < plan.steps@.len() implies plan.steps@[x] == (g2.steps@
                + flip_steps(g1.steps@))[x] by {
                if x >= g2.steps@.len() {
                    let m = x - g2.steps@.len();
                    assert(plan.steps@[g2.steps@.len() + m] == flip_steps(g1.steps@)[m]);
                }
            }
            assert(plan.steps@ =~= g2.steps@ + flip_steps(g1.steps@));
        }
        Ok(plan)
    }
}

/// Copy a list of names, name for name.
fn clone_names(s: &Vec<String>) -> (r: Vec<String>)
    ensures
        r@.len() == s@.len(),
        forall|i: int| 0 <= i < s@.len() ==> (#[trigger] r@[i])@ == s@[i]@,
{
    let mut out: Vec<String> = Vec::new();
    let mut i: usize = 0;
    while i < s.len()
        invariant
            i <= s@.len(),
            out@.len() == i,
            forall|m: int| 0 <= m < i ==> (#[trigger] out@[m])@ == s@[m]@,
        decreases s@.len() - i,
    {
        out.push(s[i].clone());
        i = i + 1;
    }
    out
}

/// Two walks that pass through the same frame coincide from there on:
/// each frame has at most one parent, so the continuation is determined.
proof fn lemma_walk_suffix_determined(
    pi: Seq<(String, String)>,
    w1: Seq<String>,
    w2: Seq<String>,
    i1: int,
    i2: int,
)
    requires
        w1.len() >= 1,
        w2.len() >= 1,
        forall|i: int|
            0 <= i < w1.len() - 1 ==> find_parent(pi, (#[trigger] w1[i])@) == Some(w1[i + 1]@),
        forall|i: int|
            0 <= i < w2.len() - 1 ==> find_parent(pi, (#[trigger] w2[i])@) == Some(w2[i + 1]@),
        find_parent(pi, w1.last()@) is None,
        find_parent(pi, w2.last()@) is None,
        0 <= i1 < w1.len(),
        0 <= i2 < w2.len(),
        w1[i1]@ == w2[i2]@,
    ensures
        w1.len() - i1 == w2.len() - i2,
        forall|k: int| 0 <= k < w1.len() - i1 ==> (#[trigger] w1[i1 + k])@ == w2[i2 + k]@,
    decreases w1.len() - i1,
{
    if i1 == w1.len() - 1 {
        assert(find_parent(pi, w1[i1]@) is None);
        if i2 < w2.len() - 1 {
            assert(find_parent(pi, w2[i2]@) == Some(w2[i2 + 1]@));
            assert(false);
        }
        assert forall|k: int| 0 <= k < w1.len() - i1 implies (#[trigger] w1[i1 + k])@ == w2[i2 + k]@ by {
            assert(k == 0);
        }
    } else {
        assert(find_parent(pi, w1[i1]@) == Some(w1[i1 + 1]@));
        if i2 == w2.len() - 1 {
            assert(find_parent(pi, w2[i2]@) is None);
            assert(false);
        }
        assert(find_parent(pi, w2[i2]@) == Some(w2[i2 + 1]@));
        assert(w1[i1 + 1]@ == w2[i2 + 1]@);
        lemma_walk_suffix_determined(pi, w1, w2, i1 + 1, i2 + 1);
        assert forall|k: int| 0 <= k < w1.len() - i1 implies (#[trigger] w1[i1 + k])@ == w2[i2 + k]@ by {
            if k > 0 {
                assert(w1[(i1 + 1) + (k - 1)]@ == w2[(i2 + 1) + (k - 1)]@);
            }
        }
    }
}

/// Walks from the same frame are the same walk, frame for frame.
proof fn lemma_walk_unique(
    pi: Seq<(String, String)>,
    w1: Seq<String>,
    w2: Seq<String>,
    start: Seq<char>,
)
    requires
        complete_walk(pi, w1, start),
        complete_walk(pi, w2, start),
    ensures
        w1.len() == w2.len(),
        forall|k: int| 0 <= k < w1.len() ==> (#[trigger] w1[k])@ == w2[k]@,
    decreases w1.len(),
{
    lemma_walk_suffix_determined(pi, w1, w2, 0, 0);
    assert forall|k: int| 0 <= k < w1.len() implies (#[trigger] w1[k])@ == w2[k]@ by {
        assert(w1[0 + k]@ == w2[0 + k]@);
    }
}

/// Along a complete walk, parenthood between neighbours runs one way
/// only: the walk would otherwise revisit a frame.
proof fn lemma_walk_no_mutual_parents(
    pi: Seq<(String, String)>,
    w: Seq<String>,
    start: Seq<char>,
    m: int,
)
    requires
        complete_walk(pi, w, start),
        0 <= m < w.len() - 1,
    ensures
        find_parent(pi, w[m + 1]@) != Some(w[m]@),
{
    if find_parent(pi, w[m + 1]@) == Some(w[m]@) {
        assert(m + 1 < w.len() - 1) by {
            if m + 1 == w.len() - 1 {
                assert(find_parent(pi, w.last()@) is None);
            }
        }
        assert(find_parent(pi, w[m + 1]@) == Some(w[m + 2]@));
        assert(w[m]@ == w[m + 2]@);
        assert(false);
    }
}

/// Two name lists equal name for name.
pub open spec fn names_eq(s1: Seq<String>, s2: Seq<String>) -> bool {
    &&& s1.len() == s2.len()
    &&& forall|i: int| 0 <= i < s1.len() ==> (#[trigger] s1[i])@ == s2[i]@
}

/// A joined-path split is a view-level notion: it transports across
/// name-for-name equal walks.
proof fn lemma_lca_transport(
    a: Seq<String>,
    b: Seq<String>,
    p: Seq<String>,
    jf: int,
    jt: int,
    a2: Seq<String>,
    b2: Seq<String>,
)
    requires
        lca_joined_at(a, b, p, jf, jt),
        names_eq(a, a2),
        names_eq(b, b2),
    ensures
        lca_joined_at(a2, b2, p, jf, jt),
{
    assert forall|m: int| 0 <= m < jt implies !names_contain(a2, (#[trigger] b2[m])@) by {
        assert(b2[m]@ == b[m]@);
        if names_contain(a2, b2[m]@) {
            let w = choose|w: int| 0 <= w < a2.len() && #[trigger] a2[w]@ == b2[m]@;
            assert(a[w]@ == b[m]@);
            assert(names_contain(a, b[m]@));
        }
    }
    assert forall|i: int| 0 <= i <= jf implies (#[trigger] p[i])@ == a2[i]@ by {
        assert(p[i]@ == a[i]@);
    }
    assert forall|i: int| 0 <= i < jt implies (#[trigger] p[jf + 1 + i])@ == b2[jt - 1 - i]@ by {
        assert(p[jf + 1 + i]@ == b[jt - 1 - i]@);
    }
}

/// Reversing a joined path joins the same two walks the other way round.
proof fn lemma_lca_reverse(
    pi: Seq<(String, String)>,
    w_from: Seq<String>,
    w_to: Seq<String>,
    path: Seq<String>,
    jf: int,
    jt: int,
    sf: Seq<char>,
    st: Seq<char>,
)
    requires
        complete_walk(pi, w_from, sf),
        complete_walk(pi, w_to, st),
        lca_joined_at(w_from, w_to, path, jf, jt),
    ensures
        lca_joined_at(w_to, w_from, path.reverse(), jt, jf),
{
    let r = path.reverse();
    lemma_walk_suffix_determined(pi, w_from, w_to, jf, jt);
    assert forall|m: int| 0 <= m < jf implies !names_contain(w_to, (#[trigger] w_from[m])@) by {
        if names_contain(w_to, w_from[m]@) {
            let n = choose|n: int| 0 <= n < w_to.len() && #[trigger] w_to[n]@ == w_from[m]@;
            if n < jt {
                assert(w_from[m]@ == w_to[n]@);
                assert(names_contain(w_from, w_to[n]@));
            } else {
                let k = n - jt;
                assert(w_from[jf + k]@ == w_to[jt + k]@);
                assert(w_from[m]@ == w_from[jf + k]@);
            }
        }
    }
    assert forall|i: int| 0 <= i <= jt implies (#[trigger] r[i])@ == w_to[i]@ by {
        assert(r[i] == path[jf + jt - i]);
        if i < jt {
            assert(path[jf + 1 + (jt - 1 - i)]@ == w_to[jt - 1 - (jt - 1 - i)]@);
        } else {
            assert(path[jf]@ == w_from[jf]@);
        }
    }
    assert forall|i: int| 0 <= i < jf implies (#[trigger] r[jt + 1 + i])@ == w_from[jf - 1
        - i]@ by {
        assert(r[jt + 1 + i] == path[jf - 1 - i]);
        assert(path[jf - 1 - i]@ == w_from[jf - 1 - i]@);
    }
}

/// Two walks join at exactly one split, which pins the path name for
/// name.
proof fn lemma_lca_unique(
    w_from: Seq<String>,
    w_to: Seq<String>,
    p1: Seq<String>,
    jf1: int,
    jt1: int,
    p2: Seq<String>,
    jf2: int,
    jt2: int,
)
    requires
        lca_joined_at(w_from, w_to, p1, jf1, jt1),
        lca_joined_at(w_from, w_to, p2, jf2, jt2),
        forall|i: int, j: int| 0 <= i < j < w_from.len() ==> w_from[i]@ != w_from[j]@,
    ensures
        jf1 == jf2,
        jt1 == jt2,
        p1.len() == p2.len(),
        forall|i: int| 0 <= i < p1.len() ==> (#[trigger] p1[i])@ == p2[i]@,
{
    if jt1 < jt2 {
        assert(w_from[jf1]@ == w_to[jt1]@);
        assert(names_contain(w_from, w_to[jt1]@));
        assert(false);
    }
    if jt2 < jt1 {
        assert(w_from[jf2]@ == w_to[jt2]@);
        assert(names_contain(w_from, w_to[jt2]@));
        assert(false);
    }
    assert(w_from[jf1]@ == w_from[jf2]@);
    if jf1 != jf2 {
        assert(false);
    }
    assert forall|i: int| 0 <= i < p1.len() implies (#[trigger] p1[i])@ == p2[i]@ by {
        if i <= jf1 {
            assert(p1[i]@ == w_from[i]@);
            assert(p2[i]@ == w_from[i]@);
        } else {
            let m = i - jf1 - 1;
            assert(p1[jf1 + 1 + m]@ == w_to[jt1 - 1 - m]@);
            assert(p2[jf1 + 1 + m]@ == w_to[jt1 - 1 - m]@);
        }
    }
}

/// Between two adjacent frames of a joined path, parenthood runs one way
/// only.
proof fn lemma_path_no_mutual_parents(
    pi: Seq<(String, String)>,
    w_from: Seq<String>,
    w_to: Seq<String>,
    path: Seq<String>,
    jf: int,
    jt: int,
    sf: Seq<char>,
    st: Seq<char>,
    i: int,
)
    requires
        complete_walk(pi, w_from, sf),
        complete_walk(pi, w_to, st),
        lca_joined_at(w_from, w_to, path, jf, jt),
        0 <= i < path.len() - 1,
    ensures
        !(find_parent(pi, path[i]@) == Some(path[i + 1]@) && find_parent(pi, path[i + 1]@)
            == Some(path[i]@)),
{
    if find_parent(pi, path[i]@) == Some(path[i + 1]@) && find_parent(pi, path[i + 1]@) == Some(
        path[i]@,
    ) {
        if i < jf {
            assert(path[i]@ == w_from[i]@);
            assert(path[i + 1]@ == w_from[i + 1]@);
            lemma_walk_no_mutual_parents(pi, w_from, sf, i);
        } else if i == jf {
            assert(jt > 0);
            assert(path[jf + 1 + 0]@ == w_to[jt - 1 - 0]@);
            assert(path[i]@ == w_from[jf]@);
            assert(w_from[jf]@ == w_to[jt]@);
            lemma_walk_no_mutual_parents(pi, w_to, st, jt - 1);
        } else {
            let m = i - jf - 1;
            assert(path[jf + 1 + m]@ == w_to[jt - 1 - m]@);
            assert(path[jf + 1 + (m + 1)]@ == w_to[jt - 1 - (m + 1)]@);
            lemma_walk_no_mutual_parents(pi, w_to, st, jt - 2 - m);
        }
    }
}

/// The history a hop reads is well-formed and holds at least one sample.
proof fn lemma_hop_chain_wf(b: TfBuffer, f0: String, f1: String)
    requires
        b.wf(),
        hop_linked(b.transform_data@, f0, f1),
    ensures
        hop_chain(b.transform_data@, f0, f1).wf(),
        hop_chain(b.transform_data@, f0, f1).transform_chain@.len() >= 1,
{
    if has_edge(b.transform_data@, f0@, f1@) {
        lemma_find_edge_props(b.transform_data@, f0@, f1@);
    } else {
        lemma_find_edge_props(b.transform_data@, f1@, f0@);
    }
}

/// Where parenthood between two linked frames runs one way only, the
/// reverse hop reads the same history against its direction.
proof fn lemma_hop_flip(b: TfBuffer, f0: String, f1: String)
    requires
        b.wf(),
        hop_linked(b.transform_data@, f0, f1),
        !(find_parent(b.parent_transform_index@, f0@) == Some(f1@) && find_parent(
            b.parent_transform_index@,
            f1@,
        ) == Some(f0@)),
    ensures
        hop_linked(b.transform_data@, f1, f0),
        hop_chain(b.transform_data@, f1, f0) == hop_chain(b.transform_data@, f0, f1),
        hop_inverted(b.transform_data@, f1, f0) == !hop_inverted(b.transform_data@, f0, f1),
{
    if has_edge(b.transform_data@, f0@, f1@) && has_edge(b.transform_data@, f1@, f0@) {
        lemma_find_edge_props(b.transform_data@, f0@, f1@);
        lemma_find_edge_props(b.transform_data@, f1@, f0@);
        assert(find_parent(b.parent_transform_index@, f1@) == Some(f0@));
        assert(find_parent(b.parent_transform_index@, f0@) == Some(f1@));
        assert(false);
    }
}

impl TfBuffer {
    /// Inverse-lookup symmetry: wherever the lookups in both directions
    /// between two frames succeed at one stamp, their plans read the same
    /// stored samples at the same interpolation weights, in opposite
    /// order and with every direction flag flipped. Composing the two
    /// numeric evaluations therefore multiplies each hop with its own
    /// inverse, which is the identity up to rounding.
    #[verifier::rlimit(100)]
    #[verifier::spinoff_prover]
    pub proof fn lemma_lookup_inverse_symmetry(
        b: TfBuffer,
        from: Seq<char>,
        to: Seq<char>,
        stamp: Time,
        p1: TransformPlan,
        p2: TransformPlan,
    )
        requires
            b.wf(),
            b.plan_spec(from, to, Some(stamp), p1),
            b.plan_spec(to, from, Some(stamp), p2),
        ensures
            p1.stamp == stamp,
            p2.stamp == stamp,
            p2.steps@.len() == p1.steps@.len(),
            forall|i: int|
                0 <= i < p2.steps@.len() ==> {
                    let j = p1.steps@.len() - 1 - i;
                    &&& (#[trigger] p2.steps@[i]).value == p1.steps@[j].value
                    &&& p2.steps@[i].inverted == !p1.steps@[j].inverted
                    &&& p2.steps@[i].parent@ == p1.steps@[j].parent@
                    &&& p2.steps@[i].child@ == p1.steps@[j].child@
                },
    {
        if from == to {
            return ;
        }
        let pi = b.parent_transform_index@;
        let td = b.transform_data@;
        let path1 = choose|path: Seq<String>| #[trigger] b.plan_path_spec(
            from,
            to,
            Some(stamp),
            p1,
            path,
        );
        let path2 = choose|path: Seq<String>| #[trigger] b.plan_path_spec(
            to,
            from,
            Some(stamp),
            p2,
            path,
        );
        let (wf1, wt1) = choose|a: Seq<String>, c: Seq<String>| b.walks_join_spec(
            from,
            to,
            path1,
            a,
            c,
        );
        let (wf2, wt2) = choose|a: Seq<String>, c: Seq<String>| b.walks_join_spec(
            to,
            from,
            path2,
            a,
            c,
        );
        let (jf1, jt1) = choose|jf: int, jt: int| lca_joined_at(wf1, wt1, path1, jf, jt);
        let (jf2, jt2) = choose|jf: int, jt: int| lca_joined_at(wf2, wt2, path2, jf, jt);

        // the two sides walk the same lineages
        lemma_walk_unique(pi, wf2, wt1, to);
        lemma_walk_unique(pi, wt2, wf1, from);
        assert(names_eq(wf2, wt1));
        assert(names_eq(wt2, wf1));
        lemma_lca_transport(wf2, wt2, path2, jf2, jt2, wt1, wf1);
        lemma_lca_reverse(pi, wf1, wt1, path1, jf1, jt1, from, to);
        lemma_lca_unique(wt1, wf1, path1.reverse(), jt1, jf1, path2, jf2, jt2);

        let n = path1.len();
        assert(path2.len() == n);
        assert(p1.steps@.len() == n - 1);
        assert(p2.steps@.len() == n - 1);

        assert forall|i: int| 0 <= i < p2.steps@.len() implies {
            let j = p1.steps@.len() - 1 - i;
            &&& (#[trigger] p2.steps@[i]).value == p1.steps@[j].value
            &&& p2.steps@[i].inverted == !p1.steps@[j].inverted
            &&& p2.steps@[i].parent@ == p1.steps@[j].parent@
            &&& p2.steps@[i].child@ == p1.steps@[j].child@
        } by {
            let j = p1.steps@.len() - 1 - i;
            assert(path2[i]@ == path1.reverse()[i]@);
            assert(path2[i + 1]@ == path1.reverse()[i + 1]@);
            assert(path1.reverse()[i] == path1[n - 1 - i]);
            assert(path1.reverse()[i + 1] == path1[n - 2 - i]);
            let f0 = path1[j];
            let f1 = path1[j + 1];
            assert(path2[i]@ == f1@);
            assert(path2[i + 1]@ == f0@);

            lemma_joined_path_props(pi, wf1, wt1, path1, jf1, jt1);
            lemma_path_no_mutual_parents(pi, wf1, wt1, path1, jf1, jt1, from, to, j);
            lemma_parent_implies_edge(b, f0@);
            lemma_parent_implies_edge(b, f1@);
            assert(hop_linked(td, f0, f1));
            lemma_hop_flip(b, f0, f1);
            lemma_hop_chain_wf(b, f0, f1);
            let ch = hop_chain(td, f0, f1);

            // the spec functions read the frame names only, so the hop of
            // the reverse plan resolves to the flipped hop of the forward
            // plan
            assert(hop_chain(td, path2[i], path2[i + 1]) == hop_chain(td, f1, f0));
            assert(hop_inverted(td, path2[i], path2[i + 1]) == hop_inverted(td, f1, f0));

            assert(hop_spec(td, f0, f1, Some(stamp), p1.steps@[j]));
            assert(hop_spec(td, path2[i], path2[i + 1], Some(stamp), p2.steps@[i]));
            ch.lemma_get_spec_deterministic(
                Some(stamp),
                p1.steps@[j].value,
                p2.steps@[i].value,
            );
        }
    }
}

/// A complete walk, cut at any frame, is the complete walk from there.
proof fn lemma_walk_skip(pi: Seq<(String, String)>, w: Seq<String>, start: Seq<char>, k: int)
    requires
        complete_walk(pi, w, start),
        0 <= k < w.len(),
    ensures
        complete_walk(pi, w.skip(k), w[k]@),
{
    let ws = w.skip(k);
    assert(ws.last() == w.last());
    assert forall|i: int| 0 <= i < ws.len() - 1 implies find_parent(pi, (#[trigger] ws[i])@)
        == Some(ws[i + 1]@) by {
        assert(ws[i] == w[k + i]);
        assert(ws[i + 1] == w[k + i + 1]);
    }
    assert forall|i: int, j: int| 0 <= i < j < ws.len() implies ws[i]@ != ws[j]@ by {
        assert(ws[i] == w[k + i]);
        assert(ws[j] == w[k + j]);
    }
}

impl TfBuffer {
    /// Lookup determinism: the contract pins a successful lookup's steps,
    /// so two plans for the same query agree hop for hop.
    pub proof fn lemma_lookup_deterministic(
        b: TfBuffer,
        from: Seq<char>,
        to: Seq<char>,
        stamp: Time,
        pa: TransformPlan,
        pb: TransformPlan,
    )
        requires
            b.wf(),
            b.plan_spec(from, to, Some(stamp), pa),
            b.plan_spec(from, to, Some(stamp), pb),
        ensures
            pa.steps@.len() == pb.steps@.len(),
            forall|i: int|
                0 <= i < pa.steps@.len() ==> {
                    &&& (#[trigger] pa.steps@[i]).value == pb.steps@[i].value
                    &&& pa.steps@[i].inverted == pb.steps@[i].inverted
                    &&& pa.steps@[i].parent@ == pb.steps@[i].parent@
                    &&& pa.steps@[i].child@ == pb.steps@[i].child@
                },
    {
        if from == to {
            return ;
        }
        let pi = b.parent_transform_index@;
        let td = b.transform_data@;
        let path_a = choose|path: Seq<String>| #[trigger] b.plan_path_spec(
            from,
            to,
            Some(stamp),
            pa,
            path,
        );
        let path_b = choose|path: Seq<String>| #[trigger] b.plan_path_spec(
            from,
            to,
            Some(stamp),
            pb,
            path,
        );
        let (wf_a, wt_a) = choose|x: Seq<String>, y: Seq<String>| b.walks_join_spec(
            from,
            to,
            path_a,
            x,
            y,
        );
        let (wf_b, wt_b) = choose|x: Seq<String>, y: Seq<String>| b.walks_join_spec(
            from,
            to,
            path_b,
            x,
            y,
        );
        let (jf_a, jt_a) = choose|jf: int, jt: int| lca_joined_at(wf_a, wt_a, path_a, jf, jt);
        let (jf_b, jt_b) = choose|jf: int, jt: int| lca_joined_at(wf_b, wt_b, path_b, jf, jt);
        lemma_walk_unique(pi, wf_b, wf_a, from);
        lemma_walk_unique(pi, wt_b, wt_a, to);
        assert(names_eq(wf_b, wf_a));
        assert(names_eq(wt_b, wt_a));
        lemma_lca_transport(wf_b, wt_b, path_b, jf_b, jt_b, wf_a, wt_a);
        lemma_lca_unique(wf_a, wt_a, path_a, jf_a, jt_a, path_b, jf_b, jt_b);

        assert forall|i: int| 0 <= i < pa.steps@.len() implies {
            &&& (#[trigger] pa.steps@[i]).value == pb.steps@[i].value
            &&& pa.steps@[i].inverted == pb.steps@[i].inverted
            &&& pa.steps@[i].parent@ == pb.steps@[i].parent@
            &&& pa.steps@[i].child@ == pb.steps@[i].child@
        } by {
            let f0 = path_a[i];
            let f1 = path_a[i + 1];
            assert(path_b[i]@ == f0@);
            assert(path_b[i + 1]@ == f1@);
            lemma_joined_path_props(pi, wf_a, wt_a, path_a, jf_a, jt_a);
            lemma_parent_implies_edge(b, f0@);
            lemma_parent_implies_edge(b, f1@);
            assert(hop_linked(td, f0, f1));
            lemma_hop_chain_wf(b, f0, f1);
            let ch = hop_chain(td, f0, f1);
            assert(hop_chain(td, path_b[i], path_b[i + 1]) == ch);
            assert(hop_spec(td, f0, f1, Some(stamp), pa.steps@[i]));
            assert(hop_spec(td, path_b[i], path_b[i + 1], Some(stamp), pb.steps@[i]));
            ch.lemma_get_spec_deterministic(
                Some(stamp),
                pa.steps@[i].value,
                pb.steps@[i].value,
            );
        }
    }
}

/// Cutting a joined path at a frame on its from-side leg splits it into
/// two joined paths around that frame.
#[verifier::spinoff_prover]
#[verifier::rlimit(100)]
proof fn lemma_sub_splits_prefix(
    pi: Seq<(String, String)>,
    w_a: Seq<String>,
    w_c: Seq<String>,
    path: Seq<String>,
    jf: int,
    jt: int,
    k: int,
    sf: Seq<char>,
    st: Seq<char>,
) -> (w_b: Seq<String>)
    requires
        complete_walk(pi, w_a, sf),
        complete_walk(pi, w_c, st),
        lca_joined_at(w_a, w_c, path, jf, jt),
        0 <= k <= jf,
    ensures
        complete_walk(pi, w_b, path[k]@),
        lca_joined(w_a, w_b, path.take(k + 1)),
        lca_joined(w_b, w_c, path.skip(k)),
{
    let w_b = w_a.skip(k);
    assert(path[k]@ == w_a[k]@);
    lemma_walk_skip(pi, w_a, sf, k);
    assert(lca_joined_at(w_a, w_b, path.take(k + 1), k, 0)) by {
        assert(w_b[0] == w_a[k]);
        assert(forall|i: int| 0 <= i <= k ==> (#[trigger] path.take(k + 1)[i])@ == w_a[i]@);
    }
    assert(lca_joined_at(w_b, w_c, path.skip(k), jf - k, jt)) by {
        assert(w_b[jf - k] == w_a[jf]);
        assert forall|m: int| 0 <= m < jt implies !names_contain(w_b, (#[trigger] w_c[m])@) by {
            if names_contain(w_b, w_c[m]@) {
                let x = choose|x: int| 0 <= x < w_b.len() && #[trigger] w_b[x]@ == w_c[m]@;
                assert(w_b[x] == w_a[k + x]);
                assert(names_contain(w_a, w_c[m]@));
            }
        }
        assert forall|i: int| 0 <= i <= jf - k implies (#[trigger] path.skip(k)[i])@
            == w_b[i]@ by {
            assert(path.skip(k)[i] == path[k + i]);
            assert(path[k + i]@ == w_a[k + i]@);
            assert(w_b[i] == w_a[k + i]);
        }
        assert forall|i: int| 0 <= i < jt implies (#[trigger] path.skip(k)[(jf - k) + 1 + i])@
            == w_c[jt - 1 - i]@ by {
            assert(path.skip(k)[(jf - k) + 1 + i] == path[jf + 1 + i]);
            assert(path[jf + 1 + i]@ == w_c[jt - 1 - i]@);
        }
    }
    w_b
}

/// Cutting a joined path at a frame on its to-side leg splits it into
/// two joined paths around that frame.
#[verifier::spinoff_prover]
#[verifier::rlimit(100)]
proof fn lemma_suffix_split_upper(
    w_a: Seq<String>,
    w_c: Seq<String>,
    path: Seq<String>,
    jf: int,
    jt: int,
    k: int,
    m: int,
    w_b: Seq<String>,
)
    requires
        lca_joined_at(w_a, w_c, path, jf, jt),
        jf < k < path.len(),
        m == jt - (k - jf),
        w_b == w_c.skip(m),
    ensures
        lca_joined_at(w_a, w_b, path.take(k + 1), jf, jt - m),
{
    assert(path[jf + 1 + (k - jf - 1)]@ == w_c[jt - 1 - (k - jf - 1)]@);
    assert(path[k]@ == w_c[m]@);
    assert(w_b[jt - m] == w_c[jt]);
    assert forall|n: int| 0 <= n < jt - m implies !names_contain(w_a, (#[trigger] w_b[n])@) by {
        assert(w_b[n] == w_c[m + n]);
        assert(!names_contain(w_a, w_c[m + n]@));
    }
    assert(forall|i: int| 0 <= i <= jf ==> (#[trigger] path.take(k + 1)[i])@ == w_a[i]@);
    assert forall|i: int| 0 <= i < jt - m implies (#[trigger] path.take(k + 1)[jf + 1 + i])@
        == w_b[(jt - m) - 1 - i]@ by {
        assert(path.take(k + 1)[jf + 1 + i] == path[jf + 1 + i]);
        assert(path[jf + 1 + i]@ == w_c[jt - 1 - i]@);
        assert(w_b[(jt - m) - 1 - i] == w_c[jt - 1 - i]);
    }
}

#[verifier::spinoff_prover]
#[verifier::rlimit(100)]
proof fn lemma_suffix_split_lower(
    w_a: Seq<String>,
    w_c: Seq<String>,
    path: Seq<String>,
    jf: int,
    jt: int,
    k: int,
    m: int,
    w_b: Seq<String>,
)
    requires
        lca_joined_at(w_a, w_c, path, jf, jt),
        forall|i: int, j: int| 0 <= i < j < w_c.len() ==> w_c[i]@ != w_c[j]@,
        jf < k < path.len(),
        m == jt - (k - jf),
        w_b == w_c.skip(m),
    ensures
        lca_joined_at(w_b, w_c, path.skip(k), 0, m),
{
    assert(path[jf + 1 + (k - jf - 1)]@ == w_c[jt - 1 - (k - jf - 1)]@);
    assert(path[k]@ == w_c[m]@);
    assert(w_b[0] == w_c[m]);
    assert forall|n: int| 0 <= n < m implies !names_contain(w_b, (#[trigger] w_c[n])@) by {
        if names_contain(w_b, w_c[n]@) {
            let x = choose|x: int| 0 <= x < w_b.len() && #[trigger] w_b[x]@ == w_c[n]@;
            assert(w_b[x] == w_c[m + x]);
            assert(w_c[m + x]@ == w_c[n]@);
            assert(false);
        }
    }
    assert(path.skip(k)[0] == path[k]);
    assert forall|i: int| 0 <= i < m implies (#[trigger] path.skip(k)[0 + 1 + i])@ == w_c[m - 1
        - i]@ by {
        assert(path.skip(k)[1 + i] == path[k + 1 + i]);
        assert(path[jf + 1 + ((k - jf) + i)]@ == w_c[jt - 1 - ((k - jf) + i)]@);
        assert(k + 1 + i == jf + 1 + ((k - jf) + i));
    }
    assert(path.skip(k).len() == 0 + 1 + m);
    assert(0 <= m < w_c.len());
    assert(0 < w_b.len());
    assert forall|i: int| 0 <= i <= 0 implies (#[trigger] path.skip(k)[i])@ == w_b[i]@ by {
        assert(path.skip(k)[0] == path[k]);
        assert(path[k]@ == w_c[m]@);
    }
}

/// Cutting a joined path at a frame on its to-side leg splits it into
/// two joined paths around that frame.
#[verifier::spinoff_prover]
#[verifier::rlimit(100)]
proof fn lemma_sub_splits_suffix(
    pi: Seq<(String, String)>,
    w_a: Seq<String>,
    w_c: Seq<String>,
    path: Seq<String>,
    jf: int,
    jt: int,
    k: int,
    sf: Seq<char>,
    st: Seq<char>,
) -> (w_b: Seq<String>)
    requires
        complete_walk(pi, w_a, sf),
        complete_walk(pi, w_c, st),
        lca_joined_at(w_a, w_c, path, jf, jt),
        jf < k < path.len(),
    ensures
        complete_walk(pi, w_b, path[k]@),
        lca_joined(w_a, w_b, path.take(k + 1)),
        lca_joined(w_b, w_c, path.skip(k)),
{
    let m = jt - (k - jf);
    assert(path[jf + 1 + (k - jf - 1)]@ == w_c[jt - 1 - (k - jf - 1)]@);
    assert(path[k]@ == w_c[m]@);
    let w_b = w_c.skip(m);
    lemma_walk_skip(pi, w_c, st, m);
    lemma_suffix_split_upper(w_a, w_c, path, jf, jt, k, m, w_b);
    lemma_suffix_split_lower(w_a, w_c, path, jf, jt, k, m, w_b);
    w_b
}

/// Every hop of a joined path names a stored edge one way or the other.
proof fn lemma_path_hops_linked(
    b: TfBuffer,
    w_a: Seq<String>,
    w_c: Seq<String>,
    path: Seq<String>,
    jf: int,
    jt: int,
    sf: Seq<char>,
    st: Seq<char>,
)
    requires
        b.wf(),
        complete_walk(b.parent_transform_index@, w_a, sf),
        complete_walk(b.parent_transform_index@, w_c, st),
        lca_joined_at(w_a, w_c, path, jf, jt),
    ensures
        forall|i: int|
            0 <= i < path.len() - 1 ==> hop_linked(
                b.transform_data@,
                #[trigger] path[i],
                path[i + 1],
            ),
{
    lemma_joined_path_props(b.parent_transform_index@, w_a, w_c, path, jf, jt);
    assert forall|i: int| 0 <= i < path.len() - 1 implies hop_linked(
        b.transform_data@,
        #[trigger] path[i],
        path[i + 1],
    ) by {
        lemma_parent_implies_edge(b, path[i]@);
        lemma_parent_implies_edge(b, path[i + 1]@);
    }
}

/// Two steps over the same hop frames at the same stamp agree.
proof fn lemma_hop_match(
    b: TfBuffer,
    f0: String,
    f1: String,
    q0: String,
    q1: String,
    stamp: Time,
    sa: TransformStep,
    sb: TransformStep,
)
    requires
        b.wf(),
        hop_linked(b.transform_data@, f0, f1),
        q0@ == f0@,
        q1@ == f1@,
        hop_spec(b.transform_data@, f0, f1, Some(stamp), sa),
        hop_spec(b.transform_data@, q0, q1, Some(stamp), sb),
    ensures
        sa.value == sb.value,
        sa.inverted == sb.inverted,
        sa.parent@ == sb.parent@,
        sa.child@ == sb.child@,
{
    lemma_hop_chain_wf(b, f0, f1);
    let ch = hop_chain(b.transform_data@, f0, f1);
    assert(hop_chain(b.transform_data@, q0, q1) == ch);
    ch.lemma_get_spec_deterministic(Some(stamp), sa.value, sb.value);
}

impl TfBuffer {
    /// Lookup composition through an intermediate frame: where the middle
    /// frame lies on the resolved path, the through-plan is exactly the
    /// two part-plans laid end to end, so composing the two numeric
    /// evaluations evaluates the through-plan.
    #[verifier::rlimit(100)]
    #[verifier::spinoff_prover]
    pub proof fn lemma_lookup_concatenates(
        b: TfBuffer,
        from: Seq<char>,
        via: Seq<char>,
        to: Seq<char>,
        stamp: Time,
        p_ac: TransformPlan,
        p_ab: TransformPlan,
        p_bc: TransformPlan,
    )
        requires
            b.wf(),
            b.plan_spec(from, to, Some(stamp), p_ac),
            b.plan_spec(from, via, Some(stamp), p_ab),
            b.plan_spec(via, to, Some(stamp), p_bc),
            exists|path: Seq<String>, k: int|
                #![trigger b.plan_path_spec(from, to, Some(stamp), p_ac, path), path[k]]
                {
                    &&& b.plan_path_spec(from, to, Some(stamp), p_ac, path)
                    &&& 0 <= k < path.len()
                    &&& path[k]@ == via
                },
        ensures
            p_ac.steps@.len() == p_ab.steps@.len() + p_bc.steps@.len(),
            forall|i: int|
                0 <= i < p_ab.steps@.len() ==> {
                    &&& (#[trigger] p_ab.steps@[i]).value == p_ac.steps@[i].value
                    &&& p_ab.steps@[i].inverted == p_ac.steps@[i].inverted
                    &&& p_ab.steps@[i].parent@ == p_ac.steps@[i].parent@
                    &&& p_ab.steps@[i].child@ == p_ac.steps@[i].child@
                },
            forall|i: int|
                0 <= i < p_bc.steps@.len() ==> {
                    &&& (#[trigger] p_bc.steps@[i]).value == p_ac.steps@[p_ab.steps@.len()
                        + i].value
                    &&& p_bc.steps@[i].inverted == p_ac.steps@[p_ab.steps@.len() + i].inverted
                    &&& p_bc.steps@[i].parent@ == p_ac.steps@[p_ab.steps@.len() + i].parent@
                    &&& p_bc.steps@[i].child@ == p_ac.steps@[p_ab.steps@.len() + i].child@
                },
    {
        let pi = b.parent_transform_index@;
        let td = b.transform_data@;
        if via == from {
            // the from-side plan is the identity; the to-side plan
            // answers the whole query
            TfBuffer::lemma_lookup_deterministic(b, from, to, stamp, p_ac, p_bc);
            return ;
        }
        if via == to {
            TfBuffer::lemma_lookup_deterministic(b, from, to, stamp, p_ac, p_ab);
            return ;
        }
        let (path, k) = choose|path: Seq<String>, k: int|
            #![trigger b.plan_path_spec(from, to, Some(stamp), p_ac, path), path[k]]
            {
                &&& b.plan_path_spec(from, to, Some(stamp), p_ac, path)
                &&& 0 <= k < path.len()
                &&& path[k]@ == via
            };
        let (w_a, w_c) = choose|x: Seq<String>, y: Seq<String>| b.walks_join_spec(
            from,
            to,
            path,
            x,
            y,
        );
        let (jf, jt) = choose|x: int, y: int| lca_joined_at(w_a, w_c, path, x, y);
        if from == to {
            // both endpoints equal would force the trivial one-frame
            // path, on which the middle frame is the endpoint itself
            if jt > 0 {
                assert(w_c[0]@ == to);
                assert(names_contain(w_a, w_c[0]@));
                assert(false);
            }
            assert(w_a[jf]@ == w_c[0]@);
            assert(jf == 0);
            assert(false);
        }

        let path_ab = choose|q: Seq<String>| #[trigger] b.plan_path_spec(
            from,
            via,
            Some(stamp),
            p_ab,
            q,
        );
        let path_bc = choose|q: Seq<String>| #[trigger] b.plan_path_spec(
            via,
            to,
            Some(stamp),
            p_bc,
            q,
        );
        let (w_a2, w_b2) = choose|x: Seq<String>, y: Seq<String>| b.walks_join_spec(
            from,
            via,
            path_ab,
            x,
            y,
        );
        let (w_b3, w_c3) = choose|x: Seq<String>, y: Seq<String>| b.walks_join_spec(
            via,
            to,
            path_bc,
            x,
            y,
        );
        let (jf2, jt2) = choose|x: int, y: int| lca_joined_at(w_a2, w_b2, path_ab, x, y);
        let (jf3, jt3) = choose|x: int, y: int| lca_joined_at(w_b3, w_c3, path_bc, x, y);

        let w_b = if k <= jf {
            lemma_sub_splits_prefix(pi, w_a, w_c, path, jf, jt, k, from, to)
        } else {
            lemma_sub_splits_suffix(pi, w_a, w_c, path, jf, jt, k, from, to)
        };
        let (ju, jv) = choose|x: int, y: int| #[trigger] lca_joined_at(w_a, w_b, path.take(k + 1), x, y);
        let (jx, jy) = choose|x: int, y: int| #[trigger] lca_joined_at(w_b, w_c, path.skip(k), x, y);

        lemma_walk_unique(pi, w_a2, w_a, from);
        lemma_walk_unique(pi, w_b2, w_b, via);
        lemma_lca_transport(w_a2, w_b2, path_ab, jf2, jt2, w_a, w_b);
        lemma_lca_unique(w_a, w_b, path.take(k + 1), ju, jv, path_ab, jf2, jt2);

        lemma_walk_unique(pi, w_b3, w_b, via);
        lemma_walk_unique(pi, w_c3, w_c, to);
        lemma_lca_transport(w_b3, w_c3, path_bc, jf3, jt3, w_b, w_c);
        lemma_lca_unique(w_b, w_c, path.skip(k), jx, jy, path_bc, jf3, jt3);

        assert(path_ab.len() == k + 1);
        assert(path_bc.len() == path.len() - k);
        assert(p_ab.steps@.len() == k);
        assert(p_bc.steps@.len() == path.len() - k - 1);
        assert(p_ac.steps@.len() == path.len() - 1);
        lemma_path_hops_linked(b, w_a, w_c, path, jf, jt, from, to);

        assert forall|i: int| 0 <= i < p_ab.steps@.len() implies {
            &&& (#[trigger] p_ab.steps@[i]).value == p_ac.steps@[i].value
            &&& p_ab.steps@[i].inverted == p_ac.steps@[i].inverted
            &&& p_ab.steps@[i].parent@ == p_ac.steps@[i].parent@
            &&& p_ab.steps@[i].child@ == p_ac.steps@[i].child@
        } by {
            assert(path.take(k + 1)[i] == path[i]);
            assert(path.take(k + 1)[i + 1] == path[i + 1]);
            assert(path_ab[i]@ == path[i]@);
            assert(path_ab[i + 1]@ == path[i + 1]@);
            assert(hop_spec(td, path[i], path[i + 1], Some(stamp), p_ac.steps@[i]));
            assert(hop_spec(td, path_ab[i], path_ab[i + 1], Some(stamp), p_ab.steps@[i]));
            lemma_hop_match(
                b,
                path[i],
                path[i + 1],
                path_ab[i],
                path_ab[i + 1],
                stamp,
                p_ac.steps@[i],
                p_ab.steps@[i],
            );
        }

        assert forall|i: int| 0 <= i < p_bc.steps@.len() implies {
            &&& (#[trigger] p_bc.steps@[i]).value == p_ac.steps@[p_ab.steps@.len() + i].value
            &&& p_bc.steps@[i].inverted == p_ac.steps@[p_ab.steps@.len() + i].inverted
            &&& p_bc.steps@[i].parent@ == p_ac.steps@[p_ab.steps@.len() + i].parent@
            &&& p_bc.steps@[i].child@ == p_ac.steps@[p_ab.steps@.len() + i].child@
        } by {
            assert(path.skip(k)[i] == path[k + i]);
            assert(path.skip(k)[i + 1] == path[k + i + 1]);
            assert(path_bc[i]@ == path[k + i]@);
            assert(path_bc[i + 1]@ == path[k + i + 1]@);
            assert(hop_spec(td, path[k + i], path[k + i + 1], Some(stamp), p_ac.steps@[k + i]));
            assert(hop_spec(td, path_bc[i], path_bc[i + 1], Some(stamp), p_bc.steps@[i]));
            lemma_hop_match(
                b,
                path[k + i],
                path[k + i + 1],
                path_bc[i],
                path_bc[i + 1],
                stamp,
                p_ac.steps@[k + i],
                p_bc.steps@[i],
            );
        }
    }
}

} // verus!
