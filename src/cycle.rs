use vstd::prelude::*;

use crate::dag::{
    depends_on, is_acyclic, is_cycle, lemma_index_set_bounded,
    lemma_ranked_is_acyclic, path_step, ranks_dependencies_lower, well_indexed,
};

verus! {

/// Node `i` has a dependency that is not yet marked in `done`.
pub open spec fn has_unmarked_dep(adj: Seq<Seq<usize>>, done: Seq<bool>, i: int) -> bool {
    exists|k: int| 0 <= k < adj[i].len() && !#[trigger] done[adj[i][k] as int]
}

/// Every unmarked node waits on another unmarked node.
pub open spec fn stuck(adj: Seq<Seq<usize>>, done: Seq<bool>) -> bool {
    forall|i: int| 0 <= i < adj.len() && !done[i] ==> #[trigger] has_unmarked_dep(adj, done, i)
}

/// The indices marked in `done`.
pub open spec fn marked(done: Seq<bool>) -> Set<int> {
    Set::new(|i: int| 0 <= i < done.len() && done[i])
}

fn all_marked(deps: &Vec<usize>, done: &Vec<bool>) -> (r: bool)
    requires
        forall|k: int| 0 <= k < deps.len() ==> #[trigger] deps[k] < done.len(),
    ensures
        r == forall|k: int| 0 <= k < deps.len() ==> #[trigger] done@[deps@[k] as int],
{
    let mut k: usize = 0;
    while k < deps.len()
        invariant
            k <= deps.len(),
            forall|j: int| 0 <= j < deps.len() ==> #[trigger] deps[j] < done.len(),
            forall|j: int| 0 <= j < k ==> #[trigger] done@[deps@[j] as int],
        decreases deps.len() - k,
    {
        if !done[deps[k]] {
            return false;
        }
        k += 1;
    }
    true
}

fn first_unmarked(deps: &Vec<usize>, done: &Vec<bool>) -> (r: Option<usize>)
    requires
        forall|k: int| 0 <= k < deps.len() ==> #[trigger] deps[k] < done.len(),
    ensures
        r matches Some(d) ==> deps@.contains(d) && !done@[d as int],
        r is None ==> forall|k: int| 0 <= k < deps.len() ==> #[trigger] done@[deps@[k] as int],
{
    let mut k: usize = 0;
    while k < deps.len()
        invariant
            k <= deps.len(),
            forall|j: int| 0 <= j < deps.len() ==> #[trigger] deps[j] < done.len(),
            forall|j: int| 0 <= j < k ==> #[trigger] done@[deps@[j] as int],
        decreases deps.len() - k,
    {
        if !done[deps[k]] {
            assert(deps@[k as int] == deps[k as int]);
            return Some(deps[k]);
        }
        k += 1;
    }
    None
}

/// Marks, pass after pass, every node whose dependencies are all marked, giving
/// each a rank above its dependencies' ranks, until a pass marks nothing.
fn eliminate(adj: &Vec<Vec<usize>>) -> (r: (Vec<bool>, Vec<usize>))
    requires
        well_indexed(adj.deep_view()),
    ensures
        r.0.len() == adj.len(),
        r.1.len() == adj.len(),
        stuck(adj.deep_view(), r.0@),
        forall|i: int, k: int|
            0 <= i < adj.len() && r.0@[i] && 0 <= k < adj@[i].len() ==> r.0@[#[trigger] adj@[i]@[k] as int]
                && r.1@[adj@[i]@[k] as int] < r.1@[i],
{
    let ghost g = adj.deep_view();
    let n: usize = adj.len();
    let mut done: Vec<bool> = Vec::new();
    let mut rank: Vec<usize> = Vec::new();
    while done.len() < n
        invariant
            done.len() == rank.len(),
            done.len() <= n,
            forall|i: int| 0 <= i < done.len() ==> !done@[i],
        decreases n - done.len(),
    {
        done.push(false);
        rank.push(0);
    }
    assert(g.len() == n);
    assert forall|i: int, k: int| 0 <= i < n && 0 <= k < adj@[i].len() implies #[trigger] adj@[i]@[k]
        < n by {
        assert(g[i] == adj@[i]@);
        assert(g[i][k] < g.len());
    }
    let mut placed: usize = 0;
    let ghost mut placed_set: Set<int> = Set::empty();
    assert(placed_set =~= marked(done@));
    let mut progress = true;
    while progress
        invariant
            n == adj.len(),
            g == adj.deep_view(),
            done.len() == n,
            rank.len() == n,
            forall|i: int, k: int| 0 <= i < n && 0 <= k < adj@[i].len() ==> #[trigger] adj@[i]@[k] < n,
            placed_set == marked(done@),
            placed_set.finite(),
            placed_set.len() == placed,
            placed <= n,
            forall|i: int| 0 <= i < n && done@[i] ==> rank@[i] < placed,
            forall|i: int, k: int|
                0 <= i < n && done@[i] && 0 <= k < adj@[i].len() ==> done@[#[trigger] adj@[i]@[k] as int]
                    && rank@[adj@[i]@[k] as int] < rank@[i],
            !progress ==> stuck(g, done@),
        decreases n - placed + (if progress { 1int } else { 0int }),
    {
        progress = false;
        let ghost start = done@;
        let ghost placed_start = placed;
        let mut i: usize = 0;
        while i < n
            invariant
                n == adj.len(),
                g == adj.deep_view(),
                i <= n,
                done.len() == n,
                rank.len() == n,
                forall|i: int, k: int|
                    0 <= i < n && 0 <= k < adj@[i].len() ==> #[trigger] adj@[i]@[k] < n,
                placed_set == marked(done@),
                placed_set.finite(),
                placed_set.len() == placed,
                placed <= n,
                forall|i: int| 0 <= i < n && done@[i] ==> rank@[i] < placed,
                forall|i: int, k: int|
                    0 <= i < n && done@[i] && 0 <= k < adj@[i].len() ==> done@[#[trigger] adj@[i]@[k] as int]
                        && rank@[adj@[i]@[k] as int] < rank@[i],
                !progress ==> done@ == start,
                !progress ==> placed == placed_start,
                progress ==> placed > placed_start,
                !progress ==> forall|j: int|
                    0 <= j < i && !done@[j] ==> #[trigger] has_unmarked_dep(g, done@, j),
            decreases n - i,
        {
            assert(g[i as int] == adj@[i as int]@);
            if !done[i] {
                if all_marked(&adj[i], &done) {
                    proof {
                        assert(!placed_set.contains(i as int));
                        lemma_index_set_bounded(placed_set.insert(i as int), n as int);
                    }
                    done.set(i, true);
                    rank.set(i, placed);
                    proof {
                        placed_set = placed_set.insert(i as int);
                        assert(placed_set =~= marked(done@));
                    }
                    placed = placed + 1;
                    progress = true;
                } else {
                    let ghost k = choose|k: int|
                        0 <= k < adj@[i as int].len() && !done@[#[trigger] adj@[i as int]@[k] as int];
                    assert(!done@[g[i as int][k] as int]);
                }
            }
            i += 1;
        }
    }
    (done, rank)
}

/// Searches the adjacency (`adj[i]` lists the nodes that node `i` depends on) for a
/// cycle. Returns a path `p` whose every element depends on the next one and whose
/// first and last elements agree, or `None` when no such path exists.
pub fn find_cycle(adj: &Vec<Vec<usize>>) -> (r: Option<Vec<usize>>)
    requires
        well_indexed(adj.deep_view()),
    ensures
        r is None <==> is_acyclic(adj.deep_view()),
        r matches Some(p) ==> is_cycle(adj.deep_view(), p@),
{
    match rank_or_cycle(adj) {
        Ok(_) => None,
        Err(p) => Some(p),
    }
}

/// Ranks the nodes so that every node ranks above its dependencies, or returns a
/// cycle when no such ranking exists.
pub fn rank_or_cycle(adj: &Vec<Vec<usize>>) -> (r: Result<Vec<usize>, Vec<usize>>)
    requires
        well_indexed(adj.deep_view()),
    ensures
        r is Ok <==> is_acyclic(adj.deep_view()),
        r matches Ok(rank) ==> ranks_dependencies_lower(adj.deep_view(), rank@),
        r matches Err(p) ==> is_cycle(adj.deep_view(), p@),
{
    let ghost g = adj.deep_view();
    let n: usize = adj.len();
    let (done, rank) = eliminate(adj);
    assert forall|i: int, k: int| 0 <= i < n && 0 <= k < adj@[i].len() implies #[trigger] adj@[i]@[k]
        < n by {
        assert(g[i] == adj@[i]@);
        assert(g[i][k] < g.len());
    }
    let mut s: usize = 0;
    while s < n && done[s]
        invariant
            s <= n,
            done.len() == n,
            forall|j: int| 0 <= j < s ==> done@[j],
        decreases n - s,
    {
        s += 1;
    }
    if s == n {
        proof {
            assert forall|u: int, k: int| 0 <= u < g.len() && 0 <= k < g[u].len() implies rank@[
                #[trigger] g[u][k] as int] < rank@[u] by {
                assert(g[u] == adj@[u]@);
                assert(done@[u]);
            }
            lemma_ranked_is_acyclic(g, rank@);
        }
        return Ok(rank);
    }
    // Every unmarked node waits on another: walk from `s` until a node repeats.

    let mut path: Vec<usize> = Vec::new();
    path.push(s);
    let mut pos: Vec<usize> = Vec::new();
    while pos.len() < n
        invariant
            pos.len() <= n,
            forall|v: int| 0 <= v < pos.len() ==> pos@[v] == n,
        decreases n - pos.len(),
    {
        pos.push(n);
    }
    pos.set(s, 0);
    let ghost mut seen: Set<int> = set![s as int];
    assert(seen =~= Set::new(|v: int| 0 <= v < n && pos@[v] != n));
    loop
        invariant
            n == adj.len(),
            g == adj.deep_view(),
            done.len() == n,
            pos.len() == n,
            forall|i: int, k: int| 0 <= i < n && 0 <= k < adj@[i].len() ==> #[trigger] adj@[i]@[k] < n,
            stuck(g, done@),
            path.len() >= 1,
            forall|k: int| 0 <= k < path.len() ==> #[trigger] path@[k] < n,
            forall|k: int| 0 <= k < path.len() ==> !done@[#[trigger] path@[k] as int],
            forall|k: int| 0 <= k < path.len() ==> pos@[#[trigger] path@[k] as int] == k,
            forall|v: int|
                0 <= v < n && #[trigger] pos@[v] != n ==> pos@[v] < path.len() && path@[pos@[v] as int]
                    == v,
            forall|k: int| 0 <= k < path.len() - 1 ==> #[trigger] path_step(g, path@, k),
            seen == Set::new(|v: int| 0 <= v < n && pos@[v] != n),
            seen.finite(),
            seen.len() == path.len(),
        decreases n - path.len(),
    {
        let cur: usize = path[path.len() - 1];
        assert(has_unmarked_dep(g, done@, cur as int));
        assert(g[cur as int] == adj@[cur as int]@);
        let d: usize = match first_unmarked(&adj[cur], &done) {
            Some(d) => d,
            None => {
                assert(false);
                0
            },
        };
        assert(depends_on(g, cur, d));
        if pos[d] != n {
            let start: usize = pos[d];
            let ghost cyc = path@.subrange(start as int, path.len() as int).push(d);
            assert forall|k: int| 0 <= k < cyc.len() - 1 implies #[trigger] path_step(g, cyc, k) by {
                if k < cyc.len() - 2 {
                    assert(path_step(g, path@, start + k));
                }
            }
            let mut out: Vec<usize> = Vec::new();
            let mut j: usize = start;
            while j < path.len()
                invariant
                    start <= j <= path.len(),
                    out@ == path@.subrange(start as int, j as int),
                decreases path.len() - j,
            {
                out.push(path[j]);
                j += 1;
            }
            out.push(d);
            assert(out@ =~= cyc);
            assert(is_cycle(g, out@));
            return Err(out);
        }
        proof {
            assert(!seen.contains(d as int));
            lemma_index_set_bounded(seen.insert(d as int), n as int);
        }
        let ghost before = path@;
        pos.set(d, path.len());
        path.push(d);
        proof {
            assert forall|k: int| 0 <= k < path.len() - 2 implies #[trigger] path_step(g, path@, k) by {
                assert(path_step(g, before, k));
            }
            seen = seen.insert(d as int);
            assert(seen =~= Set::new(|v: int| 0 <= v < n && pos@[v] != n));
            assert(path_step(g, path@, path.len() - 2));
        }
    }
}

} // verus!
