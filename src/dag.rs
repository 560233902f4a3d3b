use vstd::prelude::*;
use vstd::set_lib::{lemma_int_range, lemma_len_subset, set_int_range};

verus! {

/// Every entry of every adjacency list names a node of the adjacency.
pub open spec fn well_indexed(adj: Seq<Seq<usize>>) -> bool {
    forall|i: int, k: int|
        0 <= i < adj.len() && 0 <= k < adj[i].len() ==> #[trigger] adj[i][k] < adj.len()
}

/// Node `u` lists node `v` among its dependencies.
pub open spec fn depends_on(adj: Seq<Seq<usize>>, u: usize, v: usize) -> bool {
    &&& (u as int) < adj.len()
    &&& adj[u as int].contains(v)
}

/// The `k`-th element of `path` depends on the next one.
pub open spec fn path_step(adj: Seq<Seq<usize>>, path: Seq<usize>, k: int) -> bool {
    depends_on(adj, path[k], path[k + 1])
}

/// A path along dependency edges of at least one edge.
pub open spec fn is_dep_path(adj: Seq<Seq<usize>>, path: Seq<usize>) -> bool {
    &&& path.len() >= 2
    &&& forall|k: int| 0 <= k < path.len() - 1 ==> #[trigger] path_step(adj, path, k)
}

/// A dependency path that ends where it starts.
pub open spec fn is_cycle(adj: Seq<Seq<usize>>, path: Seq<usize>) -> bool {
    &&& is_dep_path(adj, path)
    &&& path[0] == path.last()
}

/// No dependency path returns to its start.
pub open spec fn is_acyclic(adj: Seq<Seq<usize>>) -> bool {
    forall|path: Seq<usize>| !#[trigger] is_cycle(adj, path)
}

/// `rank` strictly decreases along every dependency edge.
pub open spec fn ranks_dependencies_lower(adj: Seq<Seq<usize>>, rank: Seq<usize>) -> bool {
    &&& rank.len() == adj.len()
    &&& forall|u: int, k: int|
        0 <= u < adj.len() && 0 <= k < adj[u].len() ==> rank[#[trigger] adj[u][k] as int]
            < rank[u]
}

proof fn lemma_rank_descends(adj: Seq<Seq<usize>>, rank: Seq<usize>, path: Seq<usize>, j: int)
    requires
        well_indexed(adj),
        ranks_dependencies_lower(adj, rank),
        is_dep_path(adj, path),
        0 <= j < path.len(),
        (path[0] as int) < adj.len(),
    ensures
        (path[j] as int) < adj.len(),
        rank[path[j] as int] + j <= rank[path[0] as int],
    decreases j,
{
    if j > 0 {
        lemma_rank_descends(adj, rank, path, j - 1);
        assert(path_step(adj, path, j - 1));
        let u = path[j - 1];
        let k = choose|k: int| 0 <= k < adj[u as int].len() && adj[u as int][k] == path[j];
        assert(adj[u as int][k] == path[j]);
    }
}

/// A ranking that decreases along every edge rules out cycles.
pub proof fn lemma_ranked_is_acyclic(adj: Seq<Seq<usize>>, rank: Seq<usize>)
    requires
        well_indexed(adj),
        ranks_dependencies_lower(adj, rank),
    ensures
        is_acyclic(adj),
{
    assert forall|path: Seq<usize>| !#[trigger] is_cycle(adj, path) by {
        if is_cycle(adj, path) {
            assert(path_step(adj, path, 0));
            lemma_rank_descends(adj, rank, path, path.len() - 1);
        }
    }
}

/// A set of indices below `n` has at most `n` elements.
pub proof fn lemma_index_set_bounded(s: Set<int>, n: int)
    requires
        0 <= n,
        forall|i: int| #[trigger] s.contains(i) ==> 0 <= i < n,
    ensures
        s.finite(),
        s.len() <= n,
{
    lemma_int_range(0, n);
    assert(s.subset_of(set_int_range(0, n)));
    lemma_len_subset(s, set_int_range(0, n));
}

} // verus!
