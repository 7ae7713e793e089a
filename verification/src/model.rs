//! The clustering model: point store, training loop with the ternary retry
//! mechanism, retry ledger, and the same-cluster query interface.

use crate::distance::hamming;
use crate::distance::hamming_exec;
use crate::partition::ClusterAssignment;
use crate::partition::TaskState;
use crate::partition::union_map;
use vstd::prelude::*;

verus! {

/// Advisory labels of the closed label set. A label constrains which merges
/// are permitted but never directly determines cluster membership.
#[derive(Clone, Copy, Debug, PartialEq, Eq, Structural)]
pub enum LabelEnum {
    /// Malicious packages.
    Malware,
    /// Acceptable packages.
    Accept,
}

/// Connectivity of two points under a finished assignment.
#[derive(Clone, Copy, Debug, PartialEq, Eq, Structural)]
pub enum ConnectEnum {
    /// The points are in the same cluster.
    Linked,
    /// The points are in different clusters.
    Separate,
}

/// Witness that a training attempt ran to completion.
#[derive(Clone, Copy, Debug, PartialEq, Eq, Structural)]
pub struct Trained;

/// A point of the boolean space: its coordinates, plus an optional label.
/// Points are immutable after ingestion.
#[derive(Debug)]
pub struct LabelBoolPoint {
    pub point: Vec<bool>,
    pub label: Option<LabelEnum>,
}

/// One rejected merge attempt: the pair of endpoints tried, and the
/// alternate pair substituted in the following attempt.
#[derive(Debug)]
pub struct NewLink<T> {
    pub initial: (T, T),
    pub resolve: (T, T),
}

/// The whole aggregate: point collection, cluster assignment with its job
/// state, and the append-only retry ledger of one training run.
#[derive(Debug)]
pub struct STAC {
    /// The ordered collection of input points; order is stable for the
    /// lifetime of one training run, and points are referred to by index.
    pub data: Vec<LabelBoolPoint>,
    /// The cluster assignment, with the job state gating queries.
    pub result: ClusterAssignment,
    /// Merge attempts that were rejected, with the alternate substituted.
    pub attempted_failed: Vec<NewLink<Vec<bool>>>,
}

/// Distance between points `i` and `j` of the collection `pts`.
pub open spec fn pair_dist(pts: Seq<LabelBoolPoint>, i: int, j: int) -> nat {
    hamming(pts[i].point@, pts[j].point@)
}

/// Points `i` and `j` lie in different clusters under `ids`.
pub open spec fn cross_cluster(ids: Seq<u32>, i: int, j: int) -> bool {
    ids[i] != ids[j]
}

/// Some pair of point indices still lies in different clusters.
pub open spec fn some_cross_pair(ids: Seq<u32>) -> bool {
    exists|i: int, j: int| 0 <= i < ids.len() && 0 <= j < ids.len() && cross_cluster(ids, i, j)
}

/// The clusters `ca` and `cb`, taken together, hold a point labeled `l`.
pub open spec fn merged_holds_label(
    pts: Seq<LabelBoolPoint>,
    ids: Seq<u32>,
    ca: u32,
    cb: u32,
    l: LabelEnum,
) -> bool {
    exists|k: int|
        0 <= k < pts.len() && (ids[k] == ca || ids[k] == cb) && #[trigger] pts[k].label == Some(l)
}

/// The label-conflict veto: merging clusters `ca` and `cb` would join a
/// point labeled `Malware` with a point labeled `Accept`. Unlabeled points
/// never create a conflict.
pub open spec fn conflicting_merge(
    pts: Seq<LabelBoolPoint>,
    ids: Seq<u32>,
    ca: u32,
    cb: u32,
) -> bool {
    merged_holds_label(pts, ids, ca, cb, LabelEnum::Malware) && merged_holds_label(
        pts,
        ids,
        ca,
        cb,
        LabelEnum::Accept,
    )
}

/// `j` is the nearest neighbor of `i` among points outside `i`'s cluster
/// and outside `ex`, at distance `d`, ties broken by the smallest index.
pub open spec fn nearest_excluding(
    pts: Seq<LabelBoolPoint>,
    ids: Seq<u32>,
    i: int,
    ex: Seq<usize>,
    j: int,
    d: nat,
) -> bool {
    &&& 0 <= j < pts.len()
    &&& cross_cluster(ids, i, j)
    &&& !ex.contains(j as usize)
    &&& d == pair_dist(pts, i, j)
    &&& forall|k: int|
        0 <= k < pts.len() && cross_cluster(ids, i, k) && !ex.contains(k as usize) ==> d
            <= #[trigger] pair_dist(pts, i, k)
    &&& forall|k: int|
        0 <= k < j && cross_cluster(ids, i, k) && !ex.contains(k as usize) ==> d
            < #[trigger] pair_dist(pts, i, k)
}

/// No single cluster holds both a point labeled `Malware` and a point
/// labeled `Accept`.
pub open spec fn no_conflicted_cluster(pts: Seq<LabelBoolPoint>, ids: Seq<u32>) -> bool {
    forall|i: int, j: int|
        0 <= i < pts.len() && 0 <= j < pts.len() && ids[i] == ids[j] ==> !(#[trigger] pts[i].label
            == Some(LabelEnum::Malware) && #[trigger] pts[j].label == Some(LabelEnum::Accept))
}

/// The label-conflict veto keeps clusters label-consistent: a merge of two
/// clusters that do not together hold both labels cannot create a cluster
/// that holds both, and every other cluster is untouched.
pub proof fn lemma_legal_union_keeps_labels_consistent(
    pts: Seq<LabelBoolPoint>,
    ids: Seq<u32>,
    a: int,
    bm: int,
)
    requires
        pts.len() == ids.len(),
        0 <= a < ids.len(),
        0 <= bm < ids.len(),
        no_conflicted_cluster(pts, ids),
        !conflicting_merge(pts, ids, ids[a], ids[bm]),
    ensures
        no_conflicted_cluster(pts, union_map(ids, a, bm)),
{
    let ca = ids[a];
    let cb = ids[bm];
    let u = union_map(ids, a, bm);
    assert forall|i: int, j: int|
        0 <= i < pts.len() && 0 <= j < pts.len() && u[i] == u[j] implies !(#[trigger] pts[i].label
        == Some(LabelEnum::Malware) && #[trigger] pts[j].label == Some(LabelEnum::Accept)) by {
        if pts[i].label == Some(LabelEnum::Malware) && pts[j].label == Some(LabelEnum::Accept) {
            let i_in = ids[i] == ca || ids[i] == cb;
            let j_in = ids[j] == ca || ids[j] == cb;
            if i_in && j_in {
                assert(merged_holds_label(pts, ids, ca, cb, LabelEnum::Malware));
                assert(merged_holds_label(pts, ids, ca, cb, LabelEnum::Accept));
            } else if !i_in && !j_in {
                assert(ids[i] == ids[j]);
            } else {
                assert(false);
            }
        }
    }
}

/// The retry records produced for one candidate pair `(a, b)`: every record
/// pairs `a`'s coordinates with a rejected endpoint and the substituted
/// alternate, the first rejected endpoint is `b`'s coordinates, and each
/// later record rejects exactly the endpoint the previous one substituted.
pub open spec fn retry_chain(
    pts: Seq<LabelBoolPoint>,
    a: int,
    b: int,
    recs: Seq<NewLink<Vec<bool>>>,
) -> bool {
    &&& forall|t: int|
        0 <= t < recs.len() ==> (#[trigger] recs[t]).initial.0@ == pts[a].point@
            && recs[t].resolve.0@ == pts[a].point@
    &&& recs.len() > 0 ==> recs[0].initial.1@ == pts[b].point@
    &&& forall|t: int|
        0 < t < recs.len() ==> (#[trigger] recs[t]).initial.1@ == recs[t - 1].resolve.1@
}

/// Appending one more substitution keeps a retry chain intact, provided the
/// new record rejects the endpoint the chain currently ends in.
proof fn lemma_retry_chain_extend(
    pts: Seq<LabelBoolPoint>,
    a: int,
    b: int,
    recs: Seq<NewLink<Vec<bool>>>,
    rec: NewLink<Vec<bool>>,
    cur: int,
)
    requires
        0 <= a < pts.len(),
        0 <= b < pts.len(),
        0 <= cur < pts.len(),
        retry_chain(pts, a, b, recs),
        rec.initial.0@ == pts[a].point@,
        rec.resolve.0@ == pts[a].point@,
        rec.initial.1@ == pts[cur].point@,
        recs.len() == 0 ==> cur == b,
        recs.len() > 0 ==> recs.last().resolve.1@ == pts[cur].point@,
    ensures
        retry_chain(pts, a, b, recs.push(rec)),
{
    let ext = recs.push(rec);
    assert forall|t: int|
        0 <= t < ext.len() implies (#[trigger] ext[t]).initial.0@ == pts[a].point@
        && ext[t].resolve.0@ == pts[a].point@ by {
        if t < recs.len() {
            assert(ext[t] == recs[t]);
        } else {
            assert(ext[t] == rec);
        }
    }
    if recs.len() == 0 {
        assert(ext[0] == rec);
    } else {
        assert(ext[0] == recs[0]);
    }
    assert forall|t: int|
        0 < t < ext.len() implies (#[trigger] ext[t]).initial.1@ == ext[t - 1].resolve.1@ by {
        if t < recs.len() {
            assert(ext[t] == recs[t]);
            assert(ext[t - 1] == recs[t - 1]);
        } else {
            assert(ext[t] == rec);
            assert(t - 1 == recs.len() - 1);
            assert(ext[t - 1] == recs[t - 1]);
            assert(recs[t - 1] == recs.last());
        }
    }
}

/// `(a, b)` is the candidate merge pair of one iteration: a closest
/// cross-cluster pair at distance `d`, ties broken first in point-index
/// order (first by `a`, then by `b`).
pub open spec fn global_candidate(
    pts: Seq<LabelBoolPoint>,
    ids: Seq<u32>,
    a: int,
    b: int,
    d: nat,
) -> bool {
    &&& 0 <= a < pts.len()
    &&& 0 <= b < pts.len()
    &&& cross_cluster(ids, a, b)
    &&& d == pair_dist(pts, a, b)
    &&& forall|i: int, j: int|
        0 <= i < pts.len() && 0 <= j < pts.len() && cross_cluster(ids, i, j) ==> d
            <= #[trigger] pair_dist(pts, i, j)
    &&& forall|i: int, j: int|
        0 <= i < a && 0 <= j < pts.len() && cross_cluster(ids, i, j) ==> d < #[trigger] pair_dist(
            pts,
            i,
            j,
        )
    &&& forall|j: int|
        0 <= j < b && cross_cluster(ids, a, j) ==> d < #[trigger] pair_dist(pts, a, j)
}

impl STAC {
    /// Number of points.
    pub open spec fn n(&self) -> int {
        self.data@.len() as int
    }

    /// The cluster id of each point, by point index.
    pub open spec fn ids(&self) -> Seq<u32> {
        self.result.ids@
    }

    /// All points have the same number of coordinates: the space has one
    /// fixed dimension.
    pub open spec fn uniform_dims(&self) -> bool {
        forall|k: int|
            0 <= k < self.n() ==> #[trigger] self.data@[k].point@.len()
                == self.data@[0].point@.len()
    }

    /// Aggregate well-formedness: the assignment is a valid partition of the
    /// point indices, the index range fits the id type, and the points span
    /// one fixed dimension.
    pub open spec fn wf(&self) -> bool {
        &&& self.result.wf(self.data@.len())
        &&& self.data@.len() <= u32::MAX
        &&& self.uniform_dims()
    }

    /// Distance between stored points `i` and `j`.
    pub open spec fn pdist(&self, i: int, j: int) -> nat {
        pair_dist(self.data@, i, j)
    }

    /// Points `i` and `j` lie in different clusters.
    pub open spec fn cross(&self, i: int, j: int) -> bool {
        cross_cluster(self.ids(), i, j)
    }

    /// Some pair of points still lies in different clusters.
    pub open spec fn has_cross_pair(&self) -> bool {
        some_cross_pair(self.ids())
    }

    /// The label-conflict veto, over this model's points and assignment.
    pub open spec fn merge_conflict(&self, ca: u32, cb: u32) -> bool {
        conflicting_merge(self.data@, self.ids(), ca, cb)
    }

    /// `j` is the nearest neighbor of `i` outside `i`'s cluster and `ex`.
    pub open spec fn is_nearest_excluding(&self, i: int, ex: Seq<usize>, j: int, d: nat) -> bool {
        nearest_excluding(self.data@, self.ids(), i, ex, j, d)
    }

    /// `(a, b)` is the candidate merge pair over this model's points and
    /// assignment.
    pub open spec fn is_global_candidate(&self, a: int, b: int, d: nat) -> bool {
        global_candidate(self.data@, self.ids(), a, b, d)
    }

    /// Some point of the collection has exactly the coordinates `v`.
    pub open spec fn has_point(&self, v: Seq<bool>) -> bool {
        exists|k: int| 0 <= k < self.n() && #[trigger] self.data@[k].point@ == v
    }

    /// `i` is the index of the first point whose coordinates equal `v`.
    pub open spec fn is_first_match(&self, i: int, v: Seq<bool>) -> bool {
        &&& 0 <= i < self.n()
        &&& self.data@[i].point@ == v
        &&& forall|k: int| 0 <= k < i ==> #[trigger] self.data@[k].point@ != v
    }

    /// Build the model over a batch of points, supplied wholesale: the
    /// discrete partition (each point its own cluster), an empty retry
    /// ledger, and job state `Ready`.
    pub fn new(given_data: Vec<LabelBoolPoint>) -> (r: STAC)
        requires
            given_data@.len() <= u32::MAX,
            forall|k: int|
                0 <= k < given_data@.len() ==> #[trigger] given_data@[k].point@.len()
                    == given_data@[0].point@.len(),
        ensures
            r.wf(),
            r.data == given_data,
            r.result.job == TaskState::Ready,
            r.ids().len() == given_data@.len(),
            forall|k: int| 0 <= k < r.n() ==> r.ids()[k] == k,
            r.attempted_failed@ =~= Seq::<NewLink<Vec<bool>>>::empty(),
            no_conflicted_cluster(r.data@, r.ids()),
    {
        let n32 = given_data.len() as u32;
        let result = ClusterAssignment::initialize(n32);
        let r = STAC { data: given_data, result, attempted_failed: Vec::new() };
        proof {
            assert forall|i: int, j: int|
                0 <= i < r.data@.len() && 0 <= j < r.data@.len() && r.ids()[i]
                    == r.ids()[j] implies !(#[trigger] r.data@[i].label == Some(LabelEnum::Malware)
                && #[trigger] r.data@[j].label == Some(LabelEnum::Accept)) by {
                assert(i == j);
            }
        }
        r
    }

    /// Nearest neighbor of point `i` among points outside `i`'s own cluster
    /// and outside the index list `excluded`; ties broken by the smallest
    /// index. `None` when every other point either shares `i`'s cluster or
    /// is excluded.
    fn closest_excluding(&self, i: usize, excluded: &Vec<usize>) -> (r: Option<(usize, u64)>)
        requires
            self.wf(),
            (i as int) < self.n(),
        ensures
            match r {
                Some((j, d)) => self.is_nearest_excluding(i as int, excluded@, j as int, d as nat),
                None => forall|k: int|
                    0 <= k < self.n() ==> !(cross_cluster(self.ids(), i as int, k)
                        && !excluded@.contains(k as usize)),
            },
    {
        let n = self.data.len();
        let mut best: Option<(usize, u64)> = None;
        let mut j: usize = 0;
        while j < n
            invariant
                self.wf(),
                (i as int) < self.n(),
                n == self.n(),
                j <= n,
                match best {
                    Some((bj, bd)) => {
                        &&& (bj as int) < j
                        &&& cross_cluster(self.ids(), i as int, bj as int)
                        &&& !excluded@.contains(bj)
                        &&& bd == pair_dist(self.data@, i as int, bj as int)
                        &&& forall|k: int|
                            0 <= k < j && cross_cluster(self.ids(), i as int, k)
                                && !excluded@.contains(k as usize) ==> bd <= #[trigger] pair_dist(
                                self.data@,
                                i as int,
                                k,
                            )
                        &&& forall|k: int|
                            0 <= k < bj && cross_cluster(self.ids(), i as int, k)
                                && !excluded@.contains(k as usize) ==> bd < #[trigger] pair_dist(
                                self.data@,
                                i as int,
                                k,
                            )
                    },
                    None => forall|k: int|
                        0 <= k < j ==> !(cross_cluster(self.ids(), i as int, k)
                            && !excluded@.contains(k as usize)),
                },
            decreases n - j,
        {
            let crossing = !self.result.same(i, j);
            if crossing && !contains_idx(excluded, j) {
                let d = hamming_exec(&self.data[i].point, &self.data[j].point);
                match best {
                    None => { best = Some((j, d)) },
                    Some((_bj, bd)) => {
                        if d < bd {
                            best = Some((j, d));
                        }
                    },
                }
            }
            j = j + 1;
        }
        best
    }

    /// Nearest cross-cluster neighbor of point `i`: the closest point that
    /// does not share `i`'s cluster id, ties broken by the smallest index.
    /// `None` when every point shares `i`'s cluster.
    pub fn closest_seperate_clusters(&self, i: usize) -> (r: Option<(usize, u64)>)
        requires
            self.wf(),
            (i as int) < self.n(),
        ensures
            match r {
                Some((j, d)) => self.is_nearest_excluding(
                    i as int,
                    Seq::<usize>::empty(),
                    j as int,
                    d as nat,
                ),
                None => forall|k: int|
                    0 <= k < self.n() ==> !cross_cluster(self.ids(), i as int, k),
            },
    {
        let excluded: Vec<usize> = Vec::new();
        let r = self.closest_excluding(i, &excluded);
        proof {
            assert(excluded@ =~= Seq::<usize>::empty());
            assert(forall|x: usize| !Seq::<usize>::empty().contains(x));
        }
        r
    }

    /// Whether linking points `a` and `b` would merge two clusters that
    /// together hold both a point labeled `Malware` and a point labeled
    /// `Accept` (the label-conflict veto).
    pub fn check_merging_labels(&self, a: usize, b: usize) -> (r: bool)
        requires
            self.wf(),
            (a as int) < self.n(),
            (b as int) < self.n(),
        ensures
            r == self.merge_conflict(self.ids()[a as int], self.ids()[b as int]),
    {
        let ca = self.result.find(a);
        let cb = self.result.find(b);
        let n = self.data.len();
        let mut has_mal = false;
        let mut has_acc = false;
        let mut k: usize = 0;
        while k < n
            invariant
                self.wf(),
                n == self.n(),
                k <= n,
                (a as int) < self.n(),
                (b as int) < self.n(),
                ca == self.ids()[a as int],
                cb == self.ids()[b as int],
                has_mal == exists|t: int|
                    0 <= t < k && (self.ids()[t] == ca || self.ids()[t] == cb)
                        && #[trigger] self.data@[t].label == Some(LabelEnum::Malware),
                has_acc == exists|t: int|
                    0 <= t < k && (self.ids()[t] == ca || self.ids()[t] == cb)
                        && #[trigger] self.data@[t].label == Some(LabelEnum::Accept),
            decreases n - k,
        {
            let c = self.result.find(k);
            let in_merged = c == ca || c == cb;
            if in_merged {
                match self.data[k].label {
                    Some(LabelEnum::Malware) => {
                        has_mal = true;
                        proof {
                            assert((self.ids()[k as int] == ca || self.ids()[k as int] == cb)
                                && self.data@[k as int].label == Some(LabelEnum::Malware));
                        }
                    },
                    Some(LabelEnum::Accept) => {
                        has_acc = true;
                        proof {
                            assert((self.ids()[k as int] == ca || self.ids()[k as int] == cb)
                                && self.data@[k as int].label == Some(LabelEnum::Accept));
                        }
                    },
                    None => {},
                }
            }
            k = k + 1;
        }
        has_mal && has_acc
    }

    /// The candidate merge pair of one iteration: for every point its
    /// nearest cross-cluster neighbor, then across all points the globally
    /// minimal such distance, ties broken first in point-index order.
    /// `None` when no cross-cluster pair exists (fewer than two points, or
    /// all points already merged).
    fn closest_global(&self) -> (r: Option<(usize, usize, u64)>)
        requires
            self.wf(),
        ensures
            match r {
                Some((a, b, d)) => self.is_global_candidate(a as int, b as int, d as nat),
                None => !self.has_cross_pair(),
            },
    {
        let n = self.data.len();
        let mut best: Option<(usize, usize, u64)> = None;
        let mut i: usize = 0;
        while i < n
            invariant
                self.wf(),
                n == self.n(),
                i <= n,
                match best {
                    Some((a, b, d)) => {
                        &&& (a as int) < i
                        &&& (b as int) < n
                        &&& cross_cluster(self.ids(), a as int, b as int)
                        &&& d == pair_dist(self.data@, a as int, b as int)
                        &&& forall|p: int, q: int|
                            0 <= p < i && 0 <= q < n && cross_cluster(self.ids(), p, q) ==> d
                                <= #[trigger] pair_dist(self.data@, p, q)
                        &&& forall|p: int, q: int|
                            0 <= p < a && 0 <= q < n && cross_cluster(self.ids(), p, q) ==> d
                                < #[trigger] pair_dist(self.data@, p, q)
                        &&& forall|q: int|
                            0 <= q < b && cross_cluster(self.ids(), a as int, q) ==> d
                                < #[trigger] pair_dist(self.data@, a as int, q)
                    },
                    None => forall|p: int, q: int|
                        0 <= p < i && 0 <= q < n ==> !cross_cluster(self.ids(), p, q),
                },
            decreases n - i,
        {
            proof {
                assert(forall|x: usize| !Seq::<usize>::empty().contains(x));
            }
            match self.closest_seperate_clusters(i) {
                None => {},
                Some((j, d)) => {
                    match best {
                        None => { best = Some((i, j, d)) },
                        Some((_a, _b, bd)) => {
                            if d < bd {
                                best = Some((i, j, d));
                            }
                        },
                    }
                },
            }
            i = i + 1;
        }
        best
    }

    /// One iteration of the training loop: select the candidate merge pair
    /// (the globally closest cross-cluster pair, ties first in point-index
    /// order), test the label-conflict veto, and on rejection substitute the
    /// next-nearest neighbor of the candidate's first endpoint not yet
    /// tried, recording each substitution in the retry ledger, at most `eta`
    /// times. A legal merge unions the two clusters and leaves the job
    /// `Pending`; when the budget is exhausted, no alternate exists, or no
    /// cross-cluster pair is left, the job moves to `Done` with the
    /// assignment unchanged.
    pub fn attempt_connect_closest(&mut self, eta: u32)
        requires
            old(self).wf(),
            old(self).result.job == TaskState::Pending,
        ensures
            final(self).wf(),
            final(self).data == old(self).data,
            final(self).result.job == TaskState::Pending || final(self).result.job
                == TaskState::Done,
            old(self).attempted_failed@.is_prefix_of(final(self).attempted_failed@),
            final(self).attempted_failed@.len() <= old(self).attempted_failed@.len() + eta,
            final(self).ids().to_set().subset_of(old(self).ids().to_set()),
            final(self).ids().to_set().len() <= old(self).ids().to_set().len(),
            final(self).result.job == TaskState::Pending ==> exists|
                ac: int,
                bc: int,
                dc: nat,
                bm: int,
            |
                {
                    &&& old(self).is_global_candidate(ac, bc, dc)
                    &&& 0 <= bm < old(self).n()
                    &&& old(self).cross(ac, bm)
                    &&& !old(self).merge_conflict(old(self).ids()[ac], old(self).ids()[bm])
                    &&& final(self).ids() == union_map(old(self).ids(), ac, bm)
                },
            final(self).result.job == TaskState::Pending
                ==> final(self).ids().to_set().len() < old(self).ids().to_set().len(),
            final(self).result.job == TaskState::Done ==> final(self).ids() == old(self).ids(),
            forall|ac: int, bc: int, dc: nat|
                #[trigger] old(self).is_global_candidate(ac, bc, dc) && !old(self).merge_conflict(
                    old(self).ids()[ac],
                    old(self).ids()[bc],
                ) ==> final(self).result.job == TaskState::Pending && final(self).ids()
                    == union_map(old(self).ids(), ac, bc),
            !old(self).has_cross_pair()
                ==> final(self).result.job == TaskState::Done && final(self).attempted_failed@
                    == old(self).attempted_failed@,
            no_conflicted_cluster(old(self).data@, old(self).ids())
                ==> no_conflicted_cluster(final(self).data@, final(self).ids()),
            forall|ac: int, bc: int, dc: nat|
                #[trigger] old(self).is_global_candidate(ac, bc, dc) ==> retry_chain(
                    old(self).data@,
                    ac,
                    bc,
                    final(self).attempted_failed@.subrange(
                        old(self).attempted_failed@.len() as int,
                        final(self).attempted_failed@.len() as int,
                    ),
                ),
    {
        let cand = self.closest_global();
        match cand {
            None => {
                self.result.job = TaskState::Done;
                proof {
                    assert(old(self).attempted_failed@.is_prefix_of(self.attempted_failed@)) by {
                        assert(self.attempted_failed@.subrange(
                            0,
                            self.attempted_failed@.len() as int,
                        ) =~= self.attempted_failed@);
                    }
                    assert forall|ac: int, bc: int, dc: nat|
                        #[trigger] old(self).is_global_candidate(
                            ac,
                            bc,
                            dc,
                        ) implies old(self).has_cross_pair() by {
                        assert(cross_cluster(old(self).ids(), ac, bc));
                    }
                    assert forall|ac: int, bc: int, dc: nat|
                        #[trigger] old(self).is_global_candidate(ac, bc, dc) implies retry_chain(
                        old(self).data@,
                        ac,
                        bc,
                        self.attempted_failed@.subrange(
                            old(self).attempted_failed@.len() as int,
                            self.attempted_failed@.len() as int,
                        ),
                    ) by {
                        assert(self.attempted_failed@.subrange(
                            old(self).attempted_failed@.len() as int,
                            self.attempted_failed@.len() as int,
                        ).len() == 0);
                    }
                }
            },
            Some((a, b, d0)) => {
                proof {
                    assert(old(self).is_global_candidate(a as int, b as int, d0 as nat));
                    assert(old(self).has_cross_pair());
                }
                let conflict0 = self.check_merging_labels(a, b);
                if !conflict0 {
                    self.result.union(a, b);
                    proof {
                        let pre = *old(self);
                        assert forall|k: int|
                            0 <= k < pre.data@.len() implies (self.ids()[k] as nat)
                            < pre.data@.len() by {
                            assert(self.ids()[k] == union_map(pre.ids(), a as int, b as int)[k]);
                        }
                        assert(pre.attempted_failed@.is_prefix_of(self.attempted_failed@)) by {
                            assert(self.attempted_failed@.subrange(
                                0,
                                self.attempted_failed@.len() as int,
                            ) =~= self.attempted_failed@);
                        }
                        assert(pre.is_global_candidate(a as int, b as int, d0 as nat) && 0 <= (
                        b as int) < pre.n() && pre.cross(a as int, b as int)
                            && !pre.merge_conflict(pre.ids()[a as int], pre.ids()[b as int])
                            && self.ids() == union_map(pre.ids(), a as int, b as int));
                        assert forall|ac: int, bc: int, dc: nat|
                            #[trigger] pre.is_global_candidate(ac, bc, dc) && !pre.merge_conflict(
                                pre.ids()[ac],
                                pre.ids()[bc],
                            ) implies self.result.job == TaskState::Pending && self.ids()
                            == union_map(pre.ids(), ac, bc) by {
                            lemma_global_candidate_unique(
                                &pre,
                                ac,
                                bc,
                                dc,
                                a as int,
                                b as int,
                                d0 as nat,
                            );
                        }
                        if no_conflicted_cluster(pre.data@, pre.ids()) {
                            lemma_legal_union_keeps_labels_consistent(
                                pre.data@,
                                pre.ids(),
                                a as int,
                                b as int,
                            );
                        }
                        assert forall|ac: int, bc: int, dc: nat|
                            #[trigger] pre.is_global_candidate(ac, bc, dc) implies retry_chain(
                            pre.data@,
                            ac,
                            bc,
                            self.attempted_failed@.subrange(
                                pre.attempted_failed@.len() as int,
                                self.attempted_failed@.len() as int,
                            ),
                        ) by {
                            assert(self.attempted_failed@.subrange(
                                pre.attempted_failed@.len() as int,
                                self.attempted_failed@.len() as int,
                            ).len() == 0);
                        }
                    }
                } else {
                    let ghost pre = *old(self);
                    let mut budget: u32 = eta;
                    let mut cur: usize = b;
                    let mut excluded: Vec<usize> = Vec::new();
                    loop
                        invariant
                            pre == *old(self),
                            self.wf(),
                            pre.wf(),
                            self.data == pre.data,
                            self.result == pre.result,
                            self.result.job == TaskState::Pending,
                            (a as int) < pre.n(),
                            (cur as int) < pre.n(),
                            pre.is_global_candidate(a as int, b as int, d0 as nat),
                            pre.merge_conflict(pre.ids()[a as int], pre.ids()[b as int]),
                            some_cross_pair(pre.ids()),
                            budget <= eta,
                            pre.attempted_failed@.is_prefix_of(self.attempted_failed@),
                            self.attempted_failed@.len() == pre.attempted_failed@.len() + (
                            eta - budget),
                            retry_chain(
                                pre.data@,
                                a as int,
                                b as int,
                                self.attempted_failed@.subrange(
                                    pre.attempted_failed@.len() as int,
                                    self.attempted_failed@.len() as int,
                                ),
                            ),
                            self.attempted_failed@.len() == pre.attempted_failed@.len() ==> cur
                                == b,
                            self.attempted_failed@.len() > pre.attempted_failed@.len()
                                ==> self.attempted_failed@.last().resolve.1@ == pre.data@[cur as int].point@,
                        decreases budget,
                    {
                        if budget == 0 {
                            self.result.job = TaskState::Done;
                            proof {
                                lemma_no_legal_candidate(pre, a as int, b as int, d0 as nat);
                                assert forall|ac: int, bc: int, dc: nat|
                                    #[trigger] pre.is_global_candidate(
                                        ac,
                                        bc,
                                        dc,
                                    ) implies retry_chain(
                                    pre.data@,
                                    ac,
                                    bc,
                                    self.attempted_failed@.subrange(
                                        pre.attempted_failed@.len() as int,
                                        self.attempted_failed@.len() as int,
                                    ),
                                ) by {
                                    lemma_global_candidate_unique(
                                        &pre,
                                        ac,
                                        bc,
                                        dc,
                                        a as int,
                                        b as int,
                                        d0 as nat,
                                    );
                                }
                            }
                            return;
                        }
                        excluded.push(cur);
                        match self.closest_excluding(a, &excluded) {
                            None => {
                                self.result.job = TaskState::Done;
                                proof {
                                    lemma_no_legal_candidate(pre, a as int, b as int, d0 as nat);
                                assert forall|ac: int, bc: int, dc: nat|
                                    #[trigger] pre.is_global_candidate(
                                        ac,
                                        bc,
                                        dc,
                                    ) implies retry_chain(
                                    pre.data@,
                                    ac,
                                    bc,
                                    self.attempted_failed@.subrange(
                                        pre.attempted_failed@.len() as int,
                                        self.attempted_failed@.len() as int,
                                    ),
                                ) by {
                                    lemma_global_candidate_unique(
                                        &pre,
                                        ac,
                                        bc,
                                        dc,
                                        a as int,
                                        b as int,
                                        d0 as nat,
                                    );
                                }
                                }
                                return;
                            },
                            Some((b2, _d2)) => {
                                let rec = NewLink {
                                    initial: (
                                        clone_bits(&self.data[a].point),
                                        clone_bits(&self.data[cur].point),
                                    ),
                                    resolve: (
                                        clone_bits(&self.data[a].point),
                                        clone_bits(&self.data[b2].point),
                                    ),
                                };
                                let ghost ledger_before = self.attempted_failed@;
                                self.attempted_failed.push(rec);
                                proof {
                                    assert(pre.attempted_failed@.is_prefix_of(
                                        self.attempted_failed@,
                                    )) by {
                                        assert(self.attempted_failed@.subrange(
                                            0,
                                            pre.attempted_failed@.len() as int,
                                        ) =~= ledger_before.subrange(
                                            0,
                                            pre.attempted_failed@.len() as int,
                                        ));
                                    }
                                    let appended = ledger_before.subrange(
                                        pre.attempted_failed@.len() as int,
                                        ledger_before.len() as int,
                                    );
                                    if appended.len() > 0 {
                                        assert(appended.last() == ledger_before.last());
                                    }
                                    assert(self.data@ == pre.data@);
                                    lemma_retry_chain_extend(
                                        pre.data@,
                                        a as int,
                                        b as int,
                                        appended,
                                        rec,
                                        cur as int,
                                    );
                                    assert(self.attempted_failed@.subrange(
                                        pre.attempted_failed@.len() as int,
                                        self.attempted_failed@.len() as int,
                                    ) =~= appended.push(rec));
                                }
                                budget = budget - 1;
                                let conflict = self.check_merging_labels(a, b2);
                                if !conflict {
                                    self.result.union(a, b2);
                                    proof {
                                        lemma_no_legal_candidate(pre, a as int, b as int, d0 as nat);
                                        assert forall|k: int|
                                            0 <= k < pre.data@.len() implies (self.ids()[k] as nat)
                                            < pre.data@.len() by {
                                            assert(self.ids()[k] == union_map(
                                                pre.ids(),
                                                a as int,
                                                b2 as int,
                                            )[k]);
                                        }
                                        assert(pre.is_global_candidate(
                                            a as int,
                                            b as int,
                                            d0 as nat,
                                        ) && 0 <= (b2 as int) < pre.n() && pre.cross(
                                            a as int,
                                            b2 as int,
                                        ) && !pre.merge_conflict(
                                            pre.ids()[a as int],
                                            pre.ids()[b2 as int],
                                        ) && self.ids() == union_map(
                                            pre.ids(),
                                            a as int,
                                            b2 as int,
                                        ));
                                        if no_conflicted_cluster(pre.data@, pre.ids()) {
                                            lemma_legal_union_keeps_labels_consistent(
                                                pre.data@,
                                                pre.ids(),
                                                a as int,
                                                b2 as int,
                                            );
                                        }
                                        assert forall|ac: int, bc: int, dc: nat|
                                            #[trigger] pre.is_global_candidate(
                                                ac,
                                                bc,
                                                dc,
                                            ) implies retry_chain(
                                            pre.data@,
                                            ac,
                                            bc,
                                            self.attempted_failed@.subrange(
                                                pre.attempted_failed@.len() as int,
                                                self.attempted_failed@.len() as int,
                                            ),
                                        ) by {
                                            lemma_global_candidate_unique(
                                                &pre,
                                                ac,
                                                bc,
                                                dc,
                                                a as int,
                                                b as int,
                                                d0 as nat,
                                            );
                                        }
                                    }
                                    return;
                                }
                                cur = b2;
                            },
                        }
                    }
                }
            },
        }
    }
}

impl STAC {
    /// One iteration of the training loop, with the retry budget reset to
    /// the configured maximum `eta`. See `attempt_connect_closest`, which
    /// carries out the iteration.
    pub fn training_iteration(&mut self, eta: u32)
        requires
            old(self).wf(),
            old(self).result.job == TaskState::Pending,
        ensures
            final(self).wf(),
            final(self).data == old(self).data,
            final(self).result.job == TaskState::Pending || final(self).result.job
                == TaskState::Done,
            old(self).attempted_failed@.is_prefix_of(final(self).attempted_failed@),
            final(self).attempted_failed@.len() <= old(self).attempted_failed@.len() + eta,
            final(self).ids().to_set().subset_of(old(self).ids().to_set()),
            final(self).ids().to_set().len() <= old(self).ids().to_set().len(),
            final(self).result.job == TaskState::Pending ==> exists|
                ac: int,
                bc: int,
                dc: nat,
                bm: int,
            |
                {
                    &&& old(self).is_global_candidate(ac, bc, dc)
                    &&& 0 <= bm < old(self).n()
                    &&& old(self).cross(ac, bm)
                    &&& !old(self).merge_conflict(old(self).ids()[ac], old(self).ids()[bm])
                    &&& final(self).ids() == union_map(old(self).ids(), ac, bm)
                },
            final(self).result.job == TaskState::Pending
                ==> final(self).ids().to_set().len() < old(self).ids().to_set().len(),
            final(self).result.job == TaskState::Done ==> final(self).ids() == old(self).ids(),
            forall|ac: int, bc: int, dc: nat|
                #[trigger] old(self).is_global_candidate(ac, bc, dc) && !old(self).merge_conflict(
                    old(self).ids()[ac],
                    old(self).ids()[bc],
                ) ==> final(self).result.job == TaskState::Pending && final(self).ids()
                    == union_map(old(self).ids(), ac, bc),
            !old(self).has_cross_pair()
                ==> final(self).result.job == TaskState::Done && final(self).attempted_failed@
                    == old(self).attempted_failed@,
            no_conflicted_cluster(old(self).data@, old(self).ids())
                ==> no_conflicted_cluster(final(self).data@, final(self).ids()),
            forall|ac: int, bc: int, dc: nat|
                #[trigger] old(self).is_global_candidate(ac, bc, dc) ==> retry_chain(
                    old(self).data@,
                    ac,
                    bc,
                    final(self).attempted_failed@.subrange(
                        old(self).attempted_failed@.len() as int,
                        final(self).attempted_failed@.len() as int,
                    ),
                ),
    {
        self.attempt_connect_closest(eta);
    }

    /// Train the model: reject (returning `None`, with no state changed)
    /// unless the job state is `Ready`; otherwise run training iterations
    /// while the job stays `Pending`, each with the retry budget reset to
    /// `eta`, until an iteration ends the run, and return `Some(Trained)`.
    ///
    /// Termination rule: training stops exactly when no legal merge can be
    /// found within the retry budget of the current iteration (which covers
    /// "fewer than two points" and "everything already merged"); no target
    /// cluster count is configured.
    pub fn train(&mut self, eta: u32) -> (r: Option<Trained>)
        requires
            old(self).wf(),
        ensures
            final(self).wf(),
            old(self).result.job != TaskState::Ready ==> r is None && *final(self) == *old(self),
            old(self).result.job == TaskState::Ready ==> {
                &&& r == Some(Trained)
                &&& final(self).result.job == TaskState::Done
                &&& final(self).data == old(self).data
                &&& final(self).ids().to_set().subset_of(old(self).ids().to_set())
                &&& final(self).ids().to_set().len() <= old(self).ids().to_set().len()
                &&& old(self).attempted_failed@.is_prefix_of(final(self).attempted_failed@)
                &&& no_conflicted_cluster(old(self).data@, old(self).ids())
                    ==> no_conflicted_cluster(final(self).data@, final(self).ids())
                &&& forall|ac: int, bc: int, dc: nat|
                    #[trigger] global_candidate(final(self).data@, final(self).ids(), ac, bc, dc)
                        ==> conflicting_merge(
                        final(self).data@,
                        final(self).ids(),
                        final(self).ids()[ac],
                        final(self).ids()[bc],
                    )
            },
    {
        if self.result.job != TaskState::Ready {
            return None;
        }
        self.result.job = TaskState::Pending;
        proof {
            assert(self.attempted_failed@.is_prefix_of(self.attempted_failed@)) by {
                assert(self.attempted_failed@.subrange(0, self.attempted_failed@.len() as int)
                    =~= self.attempted_failed@);
            }
        }
        while self.result.job == TaskState::Pending
            invariant
                self.wf(),
                self.data == old(self).data,
                self.result.job == TaskState::Pending || self.result.job == TaskState::Done,
                self.ids().to_set().subset_of(old(self).ids().to_set()),
                self.ids().to_set().len() <= old(self).ids().to_set().len(),
                old(self).attempted_failed@.is_prefix_of(self.attempted_failed@),
                no_conflicted_cluster(old(self).data@, old(self).ids()) ==> no_conflicted_cluster(
                    self.data@,
                    self.ids(),
                ),
                self.result.job == TaskState::Done ==> forall|ac: int, bc: int, dc: nat|
                    #[trigger] global_candidate(self.data@, self.ids(), ac, bc, dc)
                        ==> conflicting_merge(self.data@, self.ids(), self.ids()[ac], self.ids()[bc]),
            decreases 2 * self.ids().to_set().len() + (if self.result.job == TaskState::Pending {
                1int
            } else {
                0int
            }),
        {
            let ghost mid = *self;
            self.training_iteration(eta);
            proof {
                assert forall|x: u32| self.ids().to_set().contains(x) implies old(
                    self,
                ).ids().to_set().contains(x) by {
                    assert(mid.ids().to_set().contains(x));
                }
                assert(old(self).attempted_failed@.is_prefix_of(self.attempted_failed@)) by {
                    assert forall|t: int|
                        0 <= t < old(self).attempted_failed@.len() implies old(
                        self,
                    ).attempted_failed@[t] == self.attempted_failed@[t] by {
                        assert(old(self).attempted_failed@[t] == mid.attempted_failed@[t]);
                        assert(mid.attempted_failed@[t] == self.attempted_failed@[t]);
                    }
                    assert(old(self).attempted_failed@ =~= self.attempted_failed@.subrange(
                        0,
                        old(self).attempted_failed@.len() as int,
                    ));
                }
                if self.result.job == TaskState::Done {
                    assert forall|ac: int, bc: int, dc: nat|
                        #[trigger] global_candidate(
                            self.data@,
                            self.ids(),
                            ac,
                            bc,
                            dc,
                        ) implies conflicting_merge(
                        self.data@,
                        self.ids(),
                        self.ids()[ac],
                        self.ids()[bc],
                    ) by {
                        assert(self.ids() == mid.ids());
                        assert(self.data@ == mid.data@);
                        assert(mid.is_global_candidate(ac, bc, dc));
                        if !mid.merge_conflict(mid.ids()[ac], mid.ids()[bc]) {
                            assert(self.result.job == TaskState::Pending);
                            assert(false);
                        }
                    }
                }
            }
        }
        Some(Trained)
    }

    /// Index of the first point whose coordinates equal `v`, if any.
    fn position_of(&self, v: &Vec<bool>) -> (r: Option<usize>)
        ensures
            match r {
                Some(ix) => self.is_first_match(ix as int, v@),
                None => !self.has_point(v@),
            },
    {
        let n = self.data.len();
        let mut k: usize = 0;
        while k < n
            invariant
                n == self.n(),
                k <= n,
                forall|t: int| 0 <= t < k ==> #[trigger] self.data@[t].point@ != v@,
            decreases n - k,
        {
            if bits_eq(&self.data[k].point, v) {
                return Some(k);
            }
            k = k + 1;
        }
        None
    }

    /// Answer whether the points with coordinates `a` and `b` lie in the
    /// same cluster, against a completed assignment. Returns `None`
    /// ("unknown", distinguishable from `Separate`) while the job state is
    /// not `Done`, whatever the inputs, and when either point cannot be
    /// found in the collection; otherwise compares the cluster ids of the
    /// first occurrences of the two coordinate vectors. Never mutates state.
    pub fn same_cluster(&self, a: Vec<bool>, b: Vec<bool>) -> (r: Option<ConnectEnum>)
        requires
            self.wf(),
        ensures
            self.result.job != TaskState::Done ==> r is None,
            self.result.job == TaskState::Done && !(self.has_point(a@) && self.has_point(b@))
                ==> r is None,
            self.result.job == TaskState::Done && self.has_point(a@) && self.has_point(b@) ==> r
                is Some,
            self.result.job == TaskState::Done ==> forall|ia: int, ib: int|
                #[trigger] self.is_first_match(ia, a@) && #[trigger] self.is_first_match(ib, b@)
                    ==> (r == Some(ConnectEnum::Linked) <==> self.ids()[ia] == self.ids()[ib]) && (r
                    == Some(ConnectEnum::Separate) <==> self.ids()[ia] != self.ids()[ib]),
    {
        if self.result.job != TaskState::Done {
            return None;
        }
        let pa = self.position_of(&a);
        let pb = self.position_of(&b);
        match (pa, pb) {
            (Some(ia), Some(ib)) => {
                let same = self.result.same(ia, ib);
                proof {
                    assert forall|ja: int, jb: int|
                        #[trigger] self.is_first_match(ja, a@) && #[trigger] self.is_first_match(
                            jb,
                            b@,
                        ) implies ja == ia && jb == ib by {
                        lemma_first_match_unique(self, a@, ja, ia as int);
                        lemma_first_match_unique(self, b@, jb, ib as int);
                    }
                }
                if same {
                    Some(ConnectEnum::Linked)
                } else {
                    Some(ConnectEnum::Separate)
                }
            },
            _ => None,
        }
    }

    /// Replace the dataset wholesale: rebuild the aggregate from the new
    /// points — fresh discrete partition, empty retry ledger, job state
    /// `Ready` — discarding the old assignment and ledger. Exclusive access
    /// serializes replacement against training and queries, so no partial
    /// state is ever observable.
    pub fn update_data(&mut self, new_data: Vec<LabelBoolPoint>)
        requires
            new_data@.len() <= u32::MAX,
            forall|k: int|
                0 <= k < new_data@.len() ==> #[trigger] new_data@[k].point@.len()
                    == new_data@[0].point@.len(),
        ensures
            final(self).wf(),
            final(self).data == new_data,
            final(self).result.job == TaskState::Ready,
            final(self).ids().len() == new_data@.len(),
            forall|k: int| 0 <= k < final(self).n() ==> final(self).ids()[k] == k,
            final(self).attempted_failed@ =~= Seq::<NewLink<Vec<bool>>>::empty(),
            no_conflicted_cluster(final(self).data@, final(self).ids()),
    {
        *self = STAC::new(new_data);
    }
}

/// Two indices that are both the first match of the same coordinates are
/// equal.
proof fn lemma_first_match_unique(s: &STAC, v: Seq<bool>, i1: int, i2: int)
    requires
        s.is_first_match(i1, v),
        s.is_first_match(i2, v),
    ensures
        i1 == i2,
{
    if i1 < i2 {
        assert(s.data@[i1].point@ != v);
        assert(false);
    }
    if i2 < i1 {
        assert(s.data@[i2].point@ != v);
        assert(false);
    }
}

/// When the candidate merge pair itself is vetoed, no pair can satisfy the
/// hypothesis "the candidate pair is legal": the candidate is unique.
proof fn lemma_no_legal_candidate(pre: STAC, a: int, b: int, d0: nat)
    requires
        pre.is_global_candidate(a, b, d0),
        pre.merge_conflict(pre.ids()[a], pre.ids()[b]),
    ensures
        forall|ac: int, bc: int, dc: nat|
            #[trigger] pre.is_global_candidate(ac, bc, dc) ==> pre.merge_conflict(
                pre.ids()[ac],
                pre.ids()[bc],
            ),
{
    assert forall|ac: int, bc: int, dc: nat|
        #[trigger] pre.is_global_candidate(ac, bc, dc) implies pre.merge_conflict(
        pre.ids()[ac],
        pre.ids()[bc],
    ) by {
        lemma_global_candidate_unique(&pre, ac, bc, dc, a, b, d0);
    }
}

/// The candidate merge pair of one iteration is unique: its distance is the
/// global minimum, and the point-index tie-break pins both endpoints.
proof fn lemma_global_candidate_unique(
    s: &STAC,
    a1: int,
    b1: int,
    d1: nat,
    a2: int,
    b2: int,
    d2: nat,
)
    requires
        s.is_global_candidate(a1, b1, d1),
        s.is_global_candidate(a2, b2, d2),
    ensures
        a1 == a2,
        b1 == b2,
        d1 == d2,
{
    assert(d1 <= s.pdist(a2, b2));
    assert(d2 <= s.pdist(a1, b1));
    if a1 < a2 {
        assert(d2 < s.pdist(a1, b1));
        assert(false);
    }
    if a2 < a1 {
        assert(d1 < s.pdist(a2, b2));
        assert(false);
    }
    if b1 < b2 {
        assert(d2 < s.pdist(a2, b1));
        assert(false);
    }
    if b2 < b1 {
        assert(d1 < s.pdist(a1, b2));
        assert(false);
    }
}

/// Exact equality of two boolean coordinate vectors.
fn bits_eq(a: &Vec<bool>, b: &Vec<bool>) -> (r: bool)
    ensures
        r == (a@ == b@),
{
    if a.len() != b.len() {
        proof {
            assert(a@ != b@);
        }
        return false;
    }
    let n = a.len();
    let mut i: usize = 0;
    while i < n
        invariant
            n == a@.len(),
            n == b@.len(),
            i <= n,
            forall|k: int| 0 <= k < i ==> a@[k] == b@[k],
        decreases n - i,
    {
        if a[i] != b[i] {
            proof {
                assert(a@[i as int] != b@[i as int]);
            }
            return false;
        }
        i = i + 1;
    }
    proof {
        assert(a@ =~= b@);
    }
    true
}

/// A fresh copy of a point's coordinates.
fn clone_bits(v: &Vec<bool>) -> (r: Vec<bool>)
    ensures
        r@ == v@,
{
    let mut r: Vec<bool> = Vec::new();
    let mut i: usize = 0;
    while i < v.len()
        invariant
            i <= v@.len(),
            r@ == v@.take(i as int),
        decreases v@.len() - i,
    {
        r.push(v[i]);
        proof {
            assert(r@ =~= v@.take(i + 1));
        }
        i = i + 1;
    }
    proof {
        assert(v@.take(v@.len() as int) =~= v@);
    }
    r
}

/// Whether `x` occurs in the index list `v`.
fn contains_idx(v: &Vec<usize>, x: usize) -> (r: bool)
    ensures
        r == v@.contains(x),
{
    let mut i: usize = 0;
    while i < v.len()
        invariant
            i <= v@.len(),
            forall|k: int| 0 <= k < i ==> v@[k] != x,
        decreases v@.len() - i,
    {
        if v[i] == x {
            return true;
        }
        i = i + 1;
    }
    proof {
        assert(!v@.contains(x));
    }
    false
}

} // verus!
