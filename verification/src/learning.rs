//! The integer side of the learning kernels: how many samples a call
//! holds, which parameters it accepts, and the cluster assignments of
//! k-means.

use vstd::prelude::*;
use crate::error::KernelError;

verus! {

/// Number of coordinates of a point.
pub const POINT_WIDTH: usize = 2;

/// The number of samples of a regression: as many as the shorter of the
/// two buffers has elements.
///
/// Fails with `TooFewPoints` where that is fewer than two.
pub fn regression_samples(len_x: usize, len_y: usize) -> (result: Result<usize, KernelError>)
    ensures
        match result {
            Ok(n) => n >= 2 && n <= len_x && n <= len_y && (n == len_x || n == len_y),
            Err(e) => (len_x < 2 || len_y < 2) && e == KernelError::TooFewPoints,
        },
{
    let length = if len_x < len_y {
        len_x
    } else {
        len_y
    };
    if length < 2 {
        return Err(KernelError::TooFewPoints);
    }
    Ok(length)
}

/// The number of points in a buffer of coordinate pairs that is to be
/// clustered into `k` clusters.
///
/// Fails with `FewerPointsThanClusters` where the points are fewer than
/// `k`, and with `NoClusters` where `k` is zero.
pub fn clustering_points(data_len: usize, k: usize) -> (result: Result<usize, KernelError>)
    ensures
        match result {
            Ok(points) => points == data_len / 2 && 1 <= k <= points,
            Err(e) => if data_len / 2 < k {
                e == KernelError::FewerPointsThanClusters
            } else {
                k == 0 && e == KernelError::NoClusters
            },
        },
{
    let num_points = data_len / POINT_WIDTH;
    if num_points < k {
        return Err(KernelError::FewerPointsThanClusters);
    }
    if k == 0 {
        return Err(KernelError::NoClusters);
    }
    Ok(num_points)
}

/// The number of points in a buffer of coordinate pairs that is to be
/// projected onto `num_components` principal components.
///
/// Fails with `EmptyData` where there is no point, and with
/// `InvalidComponentCount` where `num_components` is neither 1 nor 2.
pub fn projection_points(data_len: usize, num_components: usize) -> (result: Result<
    usize,
    KernelError,
>)
    ensures
        match result {
            Ok(points) => points == data_len / 2 && points >= 1 && 1 <= num_components <= 2,
            Err(e) => if data_len / 2 == 0 {
                e == KernelError::EmptyData
            } else {
                (num_components == 0 || num_components > 2) && e
                    == KernelError::InvalidComponentCount
            },
        },
{
    let num_points = data_len / POINT_WIDTH;
    if num_points == 0 {
        return Err(KernelError::EmptyData);
    }
    if num_components == 0 || num_components > 2 {
        return Err(KernelError::InvalidComponentCount);
    }
    Ok(num_points)
}

/// How many of the first `n` points are assigned to `cluster`.
pub open spec fn members_upto(assignments: Seq<usize>, cluster: usize, n: nat) -> nat
    decreases n,
{
    if n == 0 {
        0
    } else {
        members_upto(assignments, cluster, (n - 1) as nat) + if assignments[n - 1] == cluster {
            1nat
        } else {
            0nat
        }
    }
}

/// How many points are assigned to `cluster`.
pub open spec fn members(assignments: Seq<usize>, cluster: usize) -> nat {
    members_upto(assignments, cluster, assignments.len())
}

/// No cluster has more members among the first `n` points than `n`.
pub proof fn lemma_members_bound(assignments: Seq<usize>, cluster: usize, n: nat)
    ensures
        members_upto(assignments, cluster, n) <= n,
    decreases n,
{
    if n > 0 {
        lemma_members_bound(assignments, cluster, (n - 1) as nat);
    }
}

/// Takes over the nearest cluster of each point as its assignment, and
/// tells whether any assignment changed by that.
pub fn reassign(assignments: &mut Vec<usize>, nearest: &Vec<usize>) -> (changed: bool)
    requires
        old(assignments).len() == nearest.len(),
    ensures
        final(assignments)@ == nearest@,
        changed == (old(assignments)@ != nearest@),
{
    let n = nearest.len();
    let mut changed = false;
    let mut i: usize = 0;
    while i < n
        invariant
            n == nearest.len(),
            n == assignments.len(),
            i <= n,
            forall|k: int| 0 <= k < i ==> assignments[k] == nearest[k],
            forall|k: int| i <= k < n ==> assignments[k] == old(assignments)[k],
            changed == exists|k: int| 0 <= k < i && old(assignments)[k] != nearest[k],
        decreases n - i,
    {
        if assignments[i] != nearest[i] {
            assignments.set(i, nearest[i]);
            changed = true;
        }
        i = i + 1;
    }
    proof {
        assert(assignments@ =~= nearest@);
        if !changed {
            assert(old(assignments)@ =~= nearest@);
        }
    }
    changed
}

/// Counts the members of each of `k` clusters. A cluster without members
/// has lost its points and is to be seeded anew.
pub fn cluster_sizes(assignments: &Vec<usize>, k: usize) -> (sizes: Vec<usize>)
    requires
        forall|i: int| 0 <= i < assignments.len() ==> assignments[i] < k,
    ensures
        sizes.len() == k,
        forall|c: int| 0 <= c < k ==> sizes[c] == members(assignments@, c as usize),
{
    let n = assignments.len();
    let mut sizes: Vec<usize> = Vec::new();
    while sizes.len() < k
        invariant
            sizes.len() <= k,
            forall|c: int| 0 <= c < sizes.len() ==> sizes[c] == 0,
        decreases k - sizes.len(),
    {
        sizes.push(0);
    }
    let mut i: usize = 0;
    while i < n
        invariant
            n == assignments.len(),
            i <= n,
            sizes.len() == k,
            forall|j: int| 0 <= j < assignments.len() ==> assignments[j] < k,
            forall|c: int|
                0 <= c < k ==> sizes[c] == members_upto(assignments@, c as usize, i as nat),
        decreases n - i,
    {
        let cluster = assignments[i];
        proof {
            lemma_members_bound(assignments@, cluster, i as nat);
        }
        let size = sizes[cluster];
        sizes.set(cluster, size + 1);
        i = i + 1;
    }
    sizes
}

/// How far a clustering run has come: the number of rounds of assignment
/// and update that are done, and whether the last of them changed no
/// assignment.
#[derive(Clone, Copy, Debug, PartialEq, Eq)]
pub struct ClusterRun {
    pub iterations: usize,
    pub converged: bool,
}

impl ClusterRun {
    /// Whether another round is due: the run has not converged, and has
    /// rounds left.
    pub open spec fn continues(self, max_iterations: usize) -> bool {
        !self.converged && self.iterations < max_iterations
    }

    /// The run after one more round, which changed an assignment or did not.
    pub open spec fn next(self, changed: bool) -> ClusterRun {
        ClusterRun { iterations: (self.iterations + 1) as usize, converged: !changed }
    }

    /// A run of which no round is done.
    pub fn start() -> (run: ClusterRun)
        ensures
            run == (ClusterRun { iterations: 0, converged: false }),
    {
        ClusterRun { iterations: 0, converged: false }
    }

    /// Whether another round is due.
    pub fn goes_on(&self, max_iterations: usize) -> (due: bool)
        ensures
            due == self.continues(max_iterations),
    {
        !self.converged && self.iterations < max_iterations
    }

    /// The run after one more round; it has converged where the round
    /// changed no assignment.
    pub fn after_round(self, changed: bool) -> (run: ClusterRun)
        requires
            self.iterations < usize::MAX,
        ensures
            run == self.next(changed),
    {
        ClusterRun { iterations: self.iterations + 1, converged: !changed }
    }
}

/// With one cluster, the first round changes no assignment, and the run
/// ends after that round, converged.
pub proof fn one_cluster_converges_at_once(
    assignments: Seq<usize>,
    nearest: Seq<usize>,
    max_iterations: usize,
)
    requires
        max_iterations >= 1,
        assignments.len() == nearest.len(),
        forall|i: int| 0 <= i < assignments.len() ==> assignments[i] == 0,
        forall|i: int| 0 <= i < nearest.len() ==> nearest[i] < 1,
    ensures
        assignments == nearest,
        (ClusterRun { iterations: 0, converged: false }).continues(max_iterations),
        (ClusterRun { iterations: 0, converged: false }).next(assignments != nearest) == (
        ClusterRun { iterations: 1, converged: true }),
        !(ClusterRun { iterations: 1, converged: true }).continues(max_iterations),
{
    assert(assignments =~= nearest);
}

} // verus!
