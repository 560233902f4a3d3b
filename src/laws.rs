use vstd::prelude::*;

use crate::graph::Graph;
use crate::job::{closed_under_deps, needed};
use crate::scheduler::Scheduler;

verus! {

/// A node started in a run finds every dependency's payload recorded, and it
/// stays recorded: a node starts only after each of its dependencies is done.
pub proof fn lemma_started_after_dependencies<P>(s: &Scheduler<P>, g: &Graph, v: int, k: int)
    requires
        s.wf(g),
        0 <= v < g.len(),
        s.running_view()[v] || (s.has_result(v) && !s.given(g, v)),
        0 <= k < g.adj_view()[v].len(),
    ensures
        s.has_result(g.adj_view()[v][k] as int),
{
    assert(s.node_ok(g, v));
}

/// A recorded payload belongs to a node that is neither pending nor running, so
/// no later dispatch or report replaces it: each node succeeds at most once.
pub proof fn lemma_recorded_once<P>(s: &Scheduler<P>, g: &Graph, i: int)
    requires
        s.wf(g),
        0 <= i < g.len(),
        s.has_result(i),
    ensures
        !s.pending_view()[i],
        !s.running_view()[i],
{
    assert(s.node_ok(g, i));
}

/// A supplied payload is what the run holds for its node, at every point of the
/// run, and that node is never started.
pub proof fn lemma_inputs_kept<P>(s: &Scheduler<P>, g: &Graph, id: u64)
    requires
        s.wf(g),
        s.inputs_view().contains_key(id),
    ensures
        s.results_map(g).contains_key(id),
        s.results_map(g)[id] == s.inputs_view()[id],
        g.index_of(id) matches Some(i) && !s.pending_view()[i] && !s.running_view()[i],
{
    g.lemma_index_of(id);
    let i = g.index_of(id)->Some_0;
    assert(s.node_ok(g, i));
}

/// Only needed nodes are ever pending, running or produced by the run: a target
/// that was not supplied, or transitively an unsupplied dependency of one.
pub proof fn lemma_minimal_work<P>(s: &Scheduler<P>, g: &Graph, i: int)
    requires
        s.wf(g),
        0 <= i < g.len(),
        s.pending_view()[i] || s.running_view()[i] || (s.has_result(i) && !s.given(g, i)),
    ensures
        s.needed_set(g).contains(i),
        !s.given(g, i),
{
    assert(s.node_ok(g, i));
}

/// A run whose job is seeded with the outputs `o1` of an earlier run holds, for
/// the nodes of `o1`, exactly the payloads of `o1`, at every point of the run.
pub proof fn lemma_resume_keeps_outputs<P>(
    s: &Scheduler<P>,
    g: &Graph,
    base: Map<u64, P>,
    o1: Map<u64, P>,
)
    requires
        s.wf(g),
        s.inputs_view() == base.union_prefer_right(o1),
    ensures
        s.results_map(g).restrict(o1.dom()) == o1,
{
    assert forall|id: u64| #[trigger] o1.contains_key(id) implies s.results_map(g).contains_key(id)
        && s.results_map(g)[id] == o1[id] by {
        lemma_inputs_kept(s, g, id);
    }
    assert(s.results_map(g).restrict(o1.dom()) =~= o1);
}

/// With no targets nothing is needed: nothing is pending or running and the
/// recorded payloads are exactly the supplied ones.
pub proof fn lemma_no_targets<P>(s: &Scheduler<P>, g: &Graph)
    requires
        s.wf(g),
        s.targets_view() == Set::<u64>::empty(),
    ensures
        s.needed_set(g) == Set::<int>::empty(),
        forall|i: int| 0 <= i < g.len() ==> !#[trigger] s.pending_view()[i] && !s.running_view()[i],
        s.results_map(g) == s.inputs_view(),
{
    let e = Set::<int>::empty();
    assert(closed_under_deps(g, s.targets_view(), s.inputs_view().dom(), e));
    assert(s.needed_set(g) =~= e);
    assert forall|i: int| 0 <= i < g.len() implies !#[trigger] s.pending_view()[i] && !s.running_view()[i] by {
        assert(s.node_ok(g, i));
    }
    assert forall|id: u64| #[trigger] s.results_map(g).contains_key(id) == s.inputs_view().contains_key(id) by {
        g.lemma_index_of(id);
        if s.inputs_view().contains_key(id) {
            lemma_inputs_kept(s, g, id);
        }
        if s.results_map(g).contains_key(id) {
            let i = g.index_of(id)->Some_0;
            assert(s.node_ok(g, i));
        }
    }
    assert forall|id: u64| #[trigger] s.inputs_view().contains_key(id) implies s.results_map(g)[id]
        == s.inputs_view()[id] by {
        lemma_inputs_kept(s, g, id);
    }
    assert(s.results_map(g) =~= s.inputs_view());
}

} // verus!
