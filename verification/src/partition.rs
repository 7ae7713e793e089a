//! The cluster assignment: a mapping from point index to cluster id that is
//! a valid set-partition of the index set at all times, together with the
//! job state that gates mutation and queries.

use vstd::prelude::*;
use vstd::set_lib::lemma_len_subset;

verus! {

/// Lifecycle of one training job on a cluster assignment: `Ready` (no
/// training started, queries disallowed), `Pending` (training in progress),
/// `Done` (training finished, queries allowed).
#[derive(Clone, Copy, Debug, PartialEq, Eq, Structural)]
pub enum TaskState {
    Ready,
    Pending,
    Done,
}

/// An array of length n mapping each point index to a cluster identifier,
/// plus the single job state attached to it.
#[derive(Debug)]
pub struct ClusterAssignment {
    pub ids: Vec<u32>,
    pub job: TaskState,
}

/// The assignment `ids` after merging the clusters of points `a` and `b`:
/// every point sharing either of their cluster ids is rewritten to the
/// single id of `a`'s cluster; all other points keep their id.
pub open spec fn union_map(ids: Seq<u32>, a: int, b: int) -> Seq<u32>
    recommends
        0 <= a < ids.len(),
        0 <= b < ids.len(),
{
    Seq::new(
        ids.len(),
        |k: int|
            if ids[k] == ids[a] || ids[k] == ids[b] {
                ids[a]
            } else {
                ids[k]
            },
    )
}

/// Point `k` is a member of the cluster with id `c`.
pub open spec fn in_cluster(ids: Seq<u32>, k: int, c: u32) -> bool {
    0 <= k < ids.len() && ids[k] == c
}

/// Partition invariant: every point index lies in the cluster of its own id
/// and in no cluster of any other id, so the clusters of distinct ids are
/// disjoint and together cover the whole index set.
pub proof fn lemma_partition_invariant(ids: Seq<u32>)
    ensures
        forall|k: int| 0 <= k < ids.len() ==> #[trigger] in_cluster(ids, k, ids[k]),
        forall|k: int, c1: u32, c2: u32|
            in_cluster(ids, k, c1) && in_cluster(ids, k, c2) ==> c1 == c2,
{
}

/// Monotone coarsening: an assignment whose ids are all drawn from an
/// earlier assignment has no more distinct cluster ids than the earlier one.
pub proof fn lemma_monotone_coarsening(pre: Seq<u32>, post: Seq<u32>)
    requires
        post.to_set().subset_of(pre.to_set()),
    ensures
        post.to_set().len() <= pre.to_set().len(),
{
    broadcast use vstd::seq_lib::seq_to_set_is_finite;

    lemma_len_subset(post.to_set(), pre.to_set());
}

/// Rewriting by `union_map` draws every id from the old assignment, so the
/// distinct ids form a subset of the old ones; when the two merged clusters
/// were distinct, one id disappears and the count strictly drops.
pub proof fn lemma_union_map_coarsens(ids: Seq<u32>, a: int, b: int)
    requires
        0 <= a < ids.len(),
        0 <= b < ids.len(),
    ensures
        union_map(ids, a, b).to_set().subset_of(ids.to_set()),
        union_map(ids, a, b).to_set().len() <= ids.to_set().len(),
        ids[a] != ids[b] ==> union_map(ids, a, b).to_set().len() < ids.to_set().len(),
{
    broadcast use vstd::seq_lib::seq_to_set_is_finite;
    broadcast use vstd::set::group_set_axioms;

    let u = union_map(ids, a, b);
    assert forall|x: u32| u.to_set().contains(x) implies ids.to_set().contains(x) by {
        let k = choose|k: int| 0 <= k < u.len() && u[k] == x;
        if ids[k] == ids[a] || ids[k] == ids[b] {
            assert(ids.contains(ids[a]));
        } else {
            assert(ids.contains(ids[k]));
        }
    }
    lemma_len_subset(u.to_set(), ids.to_set());
    if ids[a] != ids[b] {
        let cb = ids[b];
        assert(ids.contains(cb));
        assert(ids.to_set().contains(cb));
        assert(!u.to_set().contains(cb)) by {
            assert forall|k: int| 0 <= k < u.len() implies u[k] != cb by {}
        }
        assert(u.to_set().subset_of(ids.to_set().remove(cb)));
        lemma_len_subset(u.to_set(), ids.to_set().remove(cb));
        assert(ids.to_set().remove(cb).len() == ids.to_set().len() - 1) by {
            vstd::set::axiom_set_remove_len(ids.to_set(), cb);
        }
    }
}

impl ClusterAssignment {
    /// A valid assignment over `n` points: one cluster id per point, each id
    /// drawn from `0..n`, so the distinct ids never number more than `n`.
    pub open spec fn wf(&self, n: nat) -> bool {
        &&& self.ids@.len() == n
        &&& forall|k: int| 0 <= k < n ==> (self.ids@[k] as nat) < n
    }

    /// The discrete partition over `n` points: each point its own cluster,
    /// ids `0, 1, ..., n - 1`, job state `Ready`.
    pub fn initialize(n: u32) -> (r: ClusterAssignment)
        ensures
            r.wf(n as nat),
            r.ids@.len() == n,
            forall|k: int| 0 <= k < n ==> r.ids@[k] == k,
            r.job == TaskState::Ready,
    {
        let mut ids: Vec<u32> = Vec::new();
        let mut i: u32 = 0;
        while i < n
            invariant
                i <= n,
                ids@.len() == i,
                forall|k: int| 0 <= k < i ==> ids@[k] == k,
            decreases n - i,
        {
            ids.push(i);
            i = i + 1;
        }
        ClusterAssignment { ids, job: TaskState::Ready }
    }

    /// The cluster id currently owned by point `i`.
    pub fn find(&self, i: usize) -> (c: u32)
        requires
            i < self.ids@.len(),
        ensures
            c == self.ids@[i as int],
    {
        self.ids[i]
    }

    /// Whether points `i` and `j` currently share a cluster id.
    pub fn same(&self, i: usize, j: usize) -> (r: bool)
        requires
            i < self.ids@.len(),
            j < self.ids@.len(),
        ensures
            r == (self.ids@[i as int] == self.ids@[j as int]),
    {
        self.ids[i] == self.ids[j]
    }

    /// Merge the clusters containing `i` and `j`: every point previously
    /// sharing either cluster id ends up with the single id of `i`'s
    /// cluster. A no-op (not an error) when `i` and `j` already share a
    /// cluster; otherwise the number of distinct ids strictly drops.
    pub fn union(&mut self, i: usize, j: usize)
        requires
            i < old(self).ids@.len(),
            j < old(self).ids@.len(),
        ensures
            final(self).job == old(self).job,
            final(self).ids@ == union_map(old(self).ids@, i as int, j as int),
            old(self).ids@[i as int] == old(self).ids@[j as int]
                ==> final(self).ids@ == old(self).ids@,
            final(self).ids@.to_set().subset_of(old(self).ids@.to_set()),
            final(self).ids@.to_set().len() <= old(self).ids@.to_set().len(),
            old(self).ids@[i as int] != old(self).ids@[j as int]
                ==> final(self).ids@.to_set().len() < old(self).ids@.to_set().len(),
    {
        let ci = self.ids[i];
        let cj = self.ids[j];
        let n = self.ids.len();
        let mut k: usize = 0;
        while k < n
            invariant
                n == self.ids@.len(),
                n == old(self).ids@.len(),
                i < n,
                j < n,
                k <= n,
                ci == old(self).ids@[i as int],
                cj == old(self).ids@[j as int],
                self.job == old(self).job,
                forall|t: int|
                    0 <= t < k ==> self.ids@[t] == union_map(old(self).ids@, i as int, j as int)[t],
                forall|t: int| k <= t < n ==> self.ids@[t] == old(self).ids@[t],
            decreases n - k,
        {
            let c = self.ids[k];
            if c == ci || c == cj {
                self.ids[k] = ci;
            }
            k = k + 1;
        }
        proof {
            assert(self.ids@ =~= union_map(old(self).ids@, i as int, j as int));
            lemma_union_map_coarsens(old(self).ids@, i as int, j as int);
            if old(self).ids@[i as int] == old(self).ids@[j as int] {
                assert(self.ids@ =~= old(self).ids@);
            }
        }
    }
}

} // verus!
