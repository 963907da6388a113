//! Agent communication: the starting point of the information bottleneck.

use vstd::prelude::*;

verus! {

/// The cluster each of the `n_x` source symbols starts in: symbol `x` goes to
/// cluster `x % n_clusters`, so the symbols are dealt round-robin.
pub fn initial_cluster_assignment(n_x: usize, n_clusters: usize) -> (clusters: Vec<usize>)
    requires
        n_clusters > 0 || n_x == 0,
    ensures
        clusters.len() == n_x,
        forall|x: int| 0 <= x < n_x ==> #[trigger] clusters[x] == x % (n_clusters as int),
{
    let mut clusters: Vec<usize> = Vec::new();
    let mut x: usize = 0;
    while x < n_x
        invariant
            x <= n_x,
            n_clusters > 0 || n_x == 0,
            clusters.len() == x,
            forall|y: int| 0 <= y < x ==> #[trigger] clusters[y] == y % (n_clusters as int),
        decreases n_x - x,
    {
        clusters.push(x % n_clusters);
        x = x + 1;
    }
    clusters
}

} // verus!
