use vstd::prelude::*;

use crate::error::Error;
use crate::graph::Graph;
use crate::job::{job_fits, needed, supplied, Job};
use crate::node::has_id;
use crate::output::Output;
use crate::outputs::Outputs;

verus! {

/// What a producer's task reported.
#[derive(Debug)]
pub enum Outcome<P> {
    /// The producer returned this payload.
    Produced(P),
    /// The producer failed and must not be retried.
    Failed(String),
    /// The producer failed and asks to be run again after this delay.
    RetryAfter(std::time::Duration),
}

/// What the runtime must do after a task reported.
#[derive(Debug)]
pub enum Step {
    /// Keep waiting for tasks.
    Continue,
    /// Run the node again, with this retry count, once the delay has passed.
    Retry { index: usize, retry: u32, delay: std::time::Duration },
    /// The run is over.
    Finished(Output),
}

/// What the runtime must do after asking for work.
#[derive(Debug)]
pub enum Dispatch {
    /// Start these nodes, possibly none, and wait for tasks.
    Start(Vec<usize>),
    /// The run is over.
    Finished(Output),
}

/// The decisions of one execution of a job over a graph: which nodes to start,
/// what to keep of each result, and when the run ends. The runtime that performs
/// the work reports to it and does what it answers.
pub struct Scheduler<P> {
    results: Vec<Option<P>>,
    pending: Vec<bool>,
    running: Vec<bool>,
    retries: Vec<u32>,
    finished: bool,
    targets: Ghost<Set<u64>>,
    inputs: Ghost<Map<u64, P>>,
}

impl<P> Scheduler<P> {
    /// Per node index, the payload recorded for it so far.
    pub closed spec fn results_view(&self) -> Seq<Option<P>> {
        self.results@
    }

    /// Per node index, whether it still has to be started.
    pub closed spec fn pending_view(&self) -> Seq<bool> {
        self.pending@
    }

    /// Per node index, whether it was started and has not yet succeeded.
    pub closed spec fn running_view(&self) -> Seq<bool> {
        self.running@
    }

    /// Per node index, how often it was retried.
    pub closed spec fn retries_view(&self) -> Seq<u32> {
        self.retries@
    }

    /// Whether the run is over.
    pub closed spec fn is_finished(&self) -> bool {
        self.finished
    }

    /// The identifiers the job asked for.
    pub closed spec fn targets_view(&self) -> Set<u64> {
        self.targets@
    }

    /// The payloads the job supplied.
    pub closed spec fn inputs_view(&self) -> Map<u64, P> {
        self.inputs@
    }

    pub open spec fn has_result(&self, i: int) -> bool {
        self.results_view()[i] is Some
    }

    pub open spec fn result(&self, i: int) -> P {
        match self.results_view()[i] {
            Some(p) => p,
            None => arbitrary(),
        }
    }

    /// The nodes this run must execute.
    pub open spec fn needed_set(&self, g: &Graph) -> Set<int> {
        needed(g, self.targets_view(), self.inputs_view().dom())
    }

    /// The node at index `i` was supplied by the job.
    pub open spec fn given(&self, g: &Graph, i: int) -> bool {
        supplied(g, self.inputs_view().dom(), i)
    }

    /// Every dependency of node `i` has a recorded payload.
    pub open spec fn deps_done(&self, g: &Graph, i: int) -> bool {
        forall|k: int|
            0 <= k < g.adj_view()[i].len() ==> #[trigger] self.has_result(g.adj_view()[i][k] as int)
    }

    /// What holds of each node index throughout a run.
    pub open spec fn node_ok(&self, g: &Graph, i: int) -> bool {
        &&& self.given(g, i) ==> self.results_view()[i] == Some(self.inputs_view()[g.id_at(i)])
            && !self.pending_view()[i] && !self.running_view()[i]
        &&& self.pending_view()[i] ==> self.needed_set(g).contains(i) && !self.has_result(i)
            && !self.running_view()[i]
        &&& self.running_view()[i] ==> self.needed_set(g).contains(i) && !self.has_result(i)
            && self.deps_done(g, i)
        &&& self.has_result(i) && !self.given(g, i) ==> self.needed_set(g).contains(i)
            && self.deps_done(g, i)
        &&& self.needed_set(g).contains(i) ==> self.pending_view()[i] || self.running_view()[i]
            || self.has_result(i)
    }

    pub open spec fn wf(&self, g: &Graph) -> bool {
        &&& g.wf()
        &&& self.results_view().len() == g.len()
        &&& self.pending_view().len() == g.len()
        &&& self.running_view().len() == g.len()
        &&& self.retries_view().len() == g.len()
        &&& forall|id: u64| #[trigger] self.targets_view().contains(id) ==> has_id(g.nodes_view(), id)
        &&& forall|id: u64|
            #[trigger] self.inputs_view().contains_key(id) ==> has_id(g.nodes_view(), id)
        &&& forall|i: int| 0 <= i < g.len() ==> #[trigger] self.node_ok(g, i)
    }

    /// The recorded payloads by node identifier.
    pub open spec fn results_map(&self, g: &Graph) -> Map<u64, P> {
        Map::new(
            |id: u64| g.index_of(id) matches Some(i) && self.has_result(i),
            |id: u64| self.result(g.index_of(id)->Some_0),
        )
    }

    /// Starts a run of `job` over `graph`: every target and input must name a
    /// node of the graph. Supplied nodes start out done; the nodes the job needs
    /// start out pending.
    pub fn new(graph: &Graph, job: Job<P>) -> (r: Result<Self, Error>)
        requires
            graph.wf(),
            job.wf(),
        ensures
            r is Ok <==> job_fits(graph, &job),
            r matches Err(e) ==> e matches Error::NodeNotFound(id) && (job.targets_view().contains(id)
                || job.inputs_view().contains_key(id)) && !has_id(graph.nodes_view(), id),
            r matches Ok(s) ==> {
                &&& s.wf(graph)
                &&& !s.is_finished()
                &&& s.targets_view() == job.targets_view()
                &&& s.inputs_view() == job.inputs_view()
                &&& forall|i: int| 0 <= i < graph.len() ==> !#[trigger] s.running_view()[i]
                &&& forall|i: int|
                    0 <= i < graph.len() ==> #[trigger] s.pending_view()[i] == s.needed_set(
                        graph,
                    ).contains(i)
                &&& forall|i: int| 0 <= i < graph.len() ==> #[trigger] s.retries_view()[i] == 0
                &&& s.results_map(graph) == job.inputs_view()
            },
    {
        match graph.validate_job(&job) {
            Err(e) => {
                return Err(e);
            },
            Ok(()) => {},
        }
        let pending = job.pending(graph);
        let ghost targets = job.targets_view();
        let ghost inputs = job.inputs_view();
        let (_targets, mut supplied_payloads) = job.into_parts();
        let n: usize = graph.node_count();
        proof {
            assert forall|id: u64| #[trigger] inputs.contains_key(id) implies graph.index_of(id) matches Some(
                i,
            ) && i >= 0 by {
                assert(has_id(graph.nodes_view(), id));
                let w = choose|w: int| 0 <= w < graph.len() && #[trigger] graph.nodes_view()[w].id == id;
                graph.lemma_index_unique(id, w);
            }
        }
        let mut results: Vec<Option<P>> = Vec::new();
        let mut running: Vec<bool> = Vec::new();
        let mut retries: Vec<u32> = Vec::new();
        while results.len() < n
            invariant
                graph.wf(),
                n == graph.len(),
                results.len() <= n,
                running.len() == results.len(),
                retries.len() == results.len(),
                supplied_payloads.wf(),
                forall|id: u64|
                    #[trigger] supplied_payloads@.contains_key(id) <==> inputs.contains_key(id) && (
                    graph.index_of(id) matches Some(i) && i >= results.len()),
                forall|id: u64| #[trigger] supplied_payloads@.contains_key(id) ==> supplied_payloads@[id] == inputs[id],
                forall|id: u64| #[trigger] inputs.contains_key(id) ==> has_id(graph.nodes_view(), id),
                forall|i: int|
                    0 <= i < results.len() ==> #[trigger] results@[i] == (if inputs.contains_key(
                        graph.id_at(i),
                    ) {
                        Some(inputs[graph.id_at(i)])
                    } else {
                        None
                    }),
                forall|i: int| 0 <= i < results.len() ==> !#[trigger] running@[i],
                forall|i: int| 0 <= i < results.len() ==> #[trigger] retries@[i] == 0,
            decreases n - results.len(),
        {
            let i: usize = results.len();
            let id: u64 = graph.node_id(i);
            proof {
                graph.lemma_index_unique(id, i as int);
            }
            let taken = supplied_payloads.take(id);
            proof {
                assert forall|k: u64| #[trigger] supplied_payloads@.contains_key(k) <==> inputs.contains_key(k) && (
                    graph.index_of(k) matches Some(x) && x >= i + 1) by {
                    if k != id && graph.index_of(k) is Some {
                        assert(has_id(graph.nodes_view(), k));
                        let w = choose|w: int| 0 <= w < graph.len() && #[trigger] graph.nodes_view()[w].id == k;
                        graph.lemma_index_unique(k, w);
                    }
                }
            }
            results.push(taken);
            running.push(false);
            retries.push(0);
        }
        let s = Scheduler {
            results,
            pending,
            running,
            retries,
            finished: false,
            targets: Ghost(targets),
            inputs: Ghost(inputs),
        };
        proof {
            assert forall|i: int| 0 <= i < graph.len() implies #[trigger] s.node_ok(graph, i) by {
                assert(s.pending_view()[i] == s.needed_set(graph).contains(i));
                if s.needed_set(graph).contains(i) {
                    lemma_needed_unsupplied(graph, targets, inputs.dom(), i);
                }
            }
            assert forall|id: u64| #[trigger] s.results_map(graph).contains_key(id) == inputs.contains_key(id) by {
                if inputs.contains_key(id) || graph.index_of(id) is Some {
                    assert(has_id(graph.nodes_view(), id));
                    let x = choose|x: int| 0 <= x < graph.len() && #[trigger] graph.nodes_view()[x].id == id;
                    graph.lemma_index_unique(id, x);
                }
            }
            assert forall|id: u64| #[trigger] s.results_map(graph).contains_key(id) implies s.results_map(graph)[id] == inputs[id] by {
                let x = choose|x: int| 0 <= x < graph.len() && #[trigger] graph.nodes_view()[x].id == id;
                graph.lemma_index_unique(id, x);
            }
            assert(s.results_map(graph) =~= inputs);
        }
        Ok(s)
    }
}

/// The nodes a run needs were not supplied, and are closed under unsupplied
/// dependencies.
pub proof fn lemma_needed_unsupplied(g: &Graph, targets: Set<u64>, given: Set<u64>, i: int)
    requires
        g.wf(),
        0 <= i < g.len(),
        needed(g, targets, given).contains(i),
    ensures
        !supplied(g, given, i),
        forall|k: int|
            0 <= k < g.adj_view()[i].len() && !supplied(g, given, #[trigger] g.adj_view()[i][k] as int)
                ==> needed(g, targets, given).contains(g.adj_view()[i][k] as int),
{
    let s = Set::new(|j: int| 0 <= j < g.len() && !supplied(g, given, j));
    assert(crate::job::closed_under_deps(g, targets, given, s));
    assert forall|k: int|
        0 <= k < g.adj_view()[i].len() && !supplied(g, given, #[trigger] g.adj_view()[i][k] as int)
            implies needed(g, targets, given).contains(g.adj_view()[i][k] as int) by {
        assert forall|t: Set<int>| #[trigger] crate::job::closed_under_deps(g, targets, given, t) implies t.contains(
            g.adj_view()[i][k] as int,
        ) by {
            assert(t.contains(i));
        }
    }
}

impl<P> Scheduler<P> {
    /// Node `i` waits to be started and every dependency has a payload.
    pub open spec fn is_ready(&self, g: &Graph, i: int) -> bool {
        self.pending_view()[i] && self.deps_done(g, i)
    }

    /// Nothing runs and no pending node is ready, so nothing is pending.
    proof fn lemma_stalled_means_empty(&self, g: &Graph, i: int)
        requires
            self.wf(g),
            forall|j: int| 0 <= j < g.len() ==> !#[trigger] self.running_view()[j],
            forall|j: int| 0 <= j < g.len() && #[trigger] self.pending_view()[j] ==> !self.deps_done(g, j),
            0 <= i < g.len(),
        ensures
            !self.pending_view()[i],
        decreases g.rank_view()[i],
    {
        if self.pending_view()[i] {
            assert(self.node_ok(g, i));
            assert(!self.deps_done(g, i));
            let k = choose|k: int|
                0 <= k < g.adj_view()[i].len() && !#[trigger] self.has_result(g.adj_view()[i][k] as int);
            let d = g.adj_view()[i][k] as int;
            assert(d < g.len());
            assert(self.node_ok(g, d));
            lemma_needed_unsupplied(g, self.targets_view(), self.inputs_view().dom(), i);
            assert(!self.running_view()[d]);
            assert(g.rank_view()[d] < g.rank_view()[i]);
            self.lemma_stalled_means_empty(g, d);
        }
    }

    /// States with the same payloads agree on which dependencies are done.
    proof fn lemma_same_results(&self, other: &Self, g: &Graph)
        requires
            self.results_view() == other.results_view(),
        ensures
            forall|i: int| #[trigger] self.deps_done(g, i) == other.deps_done(g, i),
    {
        assert forall|i: int| #[trigger] self.deps_done(g, i) == other.deps_done(g, i) by {
            if self.deps_done(g, i) {
                assert forall|k: int| 0 <= k < g.adj_view()[i].len() implies #[trigger] other.has_result(g.adj_view()[i][k] as int) by {
                    assert(self.has_result(g.adj_view()[i][k] as int));
                }
            }
            if other.deps_done(g, i) {
                assert forall|k: int| 0 <= k < g.adj_view()[i].len() implies #[trigger] self.has_result(g.adj_view()[i][k] as int) by {
                    assert(other.has_result(g.adj_view()[i][k] as int));
                }
            }
        }
    }

    /// Moving a ready node from pending to running keeps the invariant.
    proof fn lemma_start_keeps_wf(before: &Self, after: &Self, g: &Graph, i: int)
        requires
            before.wf(g),
            0 <= i < g.len(),
            before.is_ready(g, i),
            after.results_view() == before.results_view(),
            after.retries_view() == before.retries_view(),
            after.targets_view() == before.targets_view(),
            after.inputs_view() == before.inputs_view(),
            after.pending_view() == before.pending_view().update(i, false),
            after.running_view() == before.running_view().update(i, true),
        ensures
            after.wf(g),
    {
        after.lemma_same_results(before, g);
        assert forall|j: int| 0 <= j < g.len() implies #[trigger] after.node_ok(g, j) by {
            assert(before.node_ok(g, j));
        }
    }

    /// States that differ in nothing the invariant reads agree on it.
    proof fn lemma_same_views_keep_wf(before: &Self, after: &Self, g: &Graph)
        requires
            before.wf(g),
            after.results_view() == before.results_view(),
            after.retries_view().len() == g.len(),
            after.targets_view() == before.targets_view(),
            after.inputs_view() == before.inputs_view(),
            after.pending_view() == before.pending_view(),
            after.running_view() == before.running_view(),
        ensures
            after.wf(g),
            after.results_map(g) == before.results_map(g),
    {
        after.lemma_same_results(before, g);
        assert forall|j: int| 0 <= j < g.len() implies #[trigger] after.node_ok(g, j) by {
            assert(before.node_ok(g, j));
        }
        assert(after.results_map(g) =~= before.results_map(g));
    }

    fn deps_have_results(&self, g: &Graph, i: usize) -> (r: bool)
        requires
            self.wf(g),
            i < g.len(),
        ensures
            r == self.deps_done(g, i as int),
    {
        let deps = g.deps_of(i);
        let mut k: usize = 0;
        while k < deps.len()
            invariant
                self.wf(g),
                i < g.len(),
                deps@ == g.adj_view()[i as int],
                k <= deps.len(),
                forall|m: int| 0 <= m < k ==> #[trigger] self.has_result(deps@[m] as int),
            decreases deps.len() - k,
        {
            assert(deps@[k as int] < g.len());
            if self.results[deps[k]].is_none() {
                assert(!self.has_result(g.adj_view()[i as int][k as int] as int));
                return false;
            }
            k += 1;
        }
        true
    }

    /// Starts every ready node. When nothing is left running, the run is over:
    /// every target then has a payload.
    pub fn dispatch(&mut self, g: &Graph, elapsed: std::time::Duration) -> (r: Dispatch)
        requires
            old(self).wf(g),
        ensures
            final(self).wf(g),
            final(self).results_view() == old(self).results_view(),
            final(self).retries_view() == old(self).retries_view(),
            final(self).targets_view() == old(self).targets_view(),
            final(self).inputs_view() == old(self).inputs_view(),
            old(self).is_finished() ==> (r matches Dispatch::Start(v) && v@.len() == 0) && *final(self)
                == *old(self),
            !old(self).is_finished() ==> match r {
                Dispatch::Start(v) => {
                    &&& !final(self).is_finished()
                    &&& v@.no_duplicates()
                    &&& forall|i: int|
                        0 <= i < g.len() ==> (v@.contains(i as usize) <==> #[trigger] old(self).is_ready(
                            g,
                            i,
                        ))
                    &&& forall|k: int| 0 <= k < v@.len() ==> #[trigger] v@[k] < g.len()
                    &&& forall|i: int|
                        0 <= i < g.len() ==> #[trigger] final(self).pending_view()[i] == (old(self).pending_view()[i] && !old(self).is_ready(g, i))
                    &&& forall|i: int|
                        0 <= i < g.len() ==> #[trigger] final(self).running_view()[i] == (old(self).running_view()[i] || old(self).is_ready(g, i))
                    &&& exists|i: int| 0 <= i < g.len() && #[trigger] final(self).running_view()[i]
                },
                Dispatch::Finished(o) => {
                    &&& o == (Output::Done { duration: elapsed })
                    &&& final(self).is_finished()
                    &&& final(self).pending_view() == old(self).pending_view()
                    &&& final(self).running_view() == old(self).running_view()
                    &&& forall|i: int| 0 <= i < g.len() ==> !#[trigger] final(self).pending_view()[i]
                    &&& forall|i: int| 0 <= i < g.len() ==> !#[trigger] final(self).running_view()[i]
                    &&& forall|id: u64|
                        #[trigger] final(self).targets_view().contains(id) ==> final(self).results_map(g).contains_key(id)
                },
            },
    {
        if self.finished {
            return Dispatch::Start(Vec::new());
        }
        let ghost start = *self;
        let n: usize = g.node_count();
        let mut started: Vec<usize> = Vec::new();
        let mut any_running = false;
        let ghost mut wit: int = 0;
        let mut i: usize = 0;
        while i < n
            invariant
                n == g.len(),
                i <= n,
                self.wf(g),
                start.wf(g),
                !self.finished,
                self.results == start.results,
                self.retries == start.retries,
                self.targets == start.targets,
                self.inputs == start.inputs,
                forall|j: int|
                    0 <= j < i ==> #[trigger] self.pending_view()[j] == (start.pending_view()[j]
                        && !start.is_ready(g, j)),
                forall|j: int|
                    0 <= j < i ==> #[trigger] self.running_view()[j] == (start.running_view()[j]
                        || start.is_ready(g, j)),
                forall|j: int| i <= j < n ==> #[trigger] self.pending_view()[j] == start.pending_view()[j],
                forall|j: int| i <= j < n ==> #[trigger] self.running_view()[j] == start.running_view()[j],
                started@.no_duplicates(),
                forall|k: int| 0 <= k < started@.len() ==> #[trigger] started@[k] < i,
                forall|j: int| 0 <= j < i ==> (started@.contains(j as usize) <==> #[trigger] start.is_ready(g, j)),
                any_running ==> 0 <= wit < i && self.running_view()[wit],
                !any_running ==> forall|j: int| 0 <= j < i ==> !#[trigger] self.running_view()[j],
            decreases n - i,
        {
            let ghost before = *self;
            if self.pending[i] && self.deps_have_results(g, i) {
                self.pending.set(i, false);
                self.running.set(i, true);
                proof {
                    Self::lemma_start_keeps_wf(&before, self, g, i as int);
                    assert forall|k: int| 0 <= k < started@.len() implies started@[k] != i by {}
                }
                let ghost old_started = started@;
                started.push(i);
                proof {
                    assert(started@ == old_started.push(i));
                    before.lemma_same_results(&start, g);
                    assert(before.pending_view()[i as int] == start.pending_view()[i as int]);
                    assert(start.is_ready(g, i as int));
                    assert forall|j: int| 0 <= j < i + 1 implies (started@.contains(j as usize) <==> #[trigger] start.is_ready(g, j)) by {
                        if j < i {
                            if started@.contains(j as usize) {
                                let k = choose|k: int| 0 <= k < started@.len() && started@[k] == j as usize;
                                if k < started@.len() - 1 {
                                    assert(old_started[k] == j as usize);
                                }
                            }
                            if start.is_ready(g, j) {
                                assert(old_started.contains(j as usize));
                                let k = choose|k: int| 0 <= k < old_started.len() && old_started[k] == j as usize;
                                assert(started@[k] == j as usize);
                            }
                        } else {
                            assert(started@[started@.len() - 1] == i);
                        }
                    }
                }
            } else {
                proof {
                    before.lemma_same_results(&start, g);
                    assert(before.pending_view()[i as int] == start.pending_view()[i as int]);
                    assert(!start.is_ready(g, i as int));
                    assert forall|j: int| 0 <= j < i + 1 implies (started@.contains(j as usize) <==> #[trigger] start.is_ready(g, j)) by {
                        if j == i && started@.contains(j as usize) {
                            let k = choose|k: int| 0 <= k < started@.len() && started@[k] == j as usize;
                            assert(started@[k] < i);
                        }
                    }
                }
            }
            if self.running[i] {
                proof {
                    wit = i as int;
                }
                any_running = true;
            }
            i += 1;
        }
        if any_running {
            return Dispatch::Start(started);
        }
        proof {
            self.lemma_same_results(&start, g);
            assert forall|j: int| 0 <= j < g.len() && #[trigger] self.pending_view()[j] implies !self.deps_done(g, j) by {
            }
            assert forall|j: int| 0 <= j < g.len() implies !#[trigger] self.pending_view()[j] by {
                self.lemma_stalled_means_empty(g, j);
            }
        }
        assert(self.pending_view() =~= start.pending_view()) by {
            assert forall|j: int| 0 <= j < g.len() implies #[trigger] self.pending_view()[j] == start.pending_view()[j] by {
                assert(!self.running_view()[j]);
            }
        }
        let ghost pre = *self;
        self.finished = true;
        proof {
            Self::lemma_same_views_keep_wf(&pre, self, g);
            assert forall|id: u64| #[trigger] self.targets_view().contains(id) implies self.results_map(g).contains_key(id) by {
                assert(has_id(g.nodes_view(), id));
                let x = choose|x: int| 0 <= x < g.len() && #[trigger] g.nodes_view()[x].id == id;
                g.lemma_index_unique(id, x);
                assert(self.node_ok(g, x));
                if !self.given(g, x) {
                    assert(crate::job::is_target(g, self.targets_view(), x));
                    assert forall|t: Set<int>| #[trigger] crate::job::closed_under_deps(g, self.targets_view(), self.inputs_view().dom(), t) implies t.contains(x) by {}
                    assert(self.needed_set(g).contains(x));
                }
            }
        }
        Dispatch::Finished(Output::Done { duration: elapsed })
    }
}

impl<P> Scheduler<P> {
    /// Records what the task of node `i` reported. A payload is kept and the
    /// node is done; a fatal error ends the run; a retriable error keeps the node
    /// running and counts one more retry. Reports for a node that is not running,
    /// or after the run ended, change nothing.
    pub fn complete(&mut self, g: &Graph, i: usize, outcome: Outcome<P>, elapsed: std::time::Duration) -> (r: Step)
        requires
            old(self).wf(g),
        ensures
            final(self).wf(g),
            final(self).targets_view() == old(self).targets_view(),
            final(self).inputs_view() == old(self).inputs_view(),
            final(self).pending_view() == old(self).pending_view(),
            forall|j: int|
                0 <= j < g.len() && old(self).has_result(j) ==> #[trigger] final(self).results_view()[j]
                    == old(self).results_view()[j],
            (old(self).is_finished() || i >= g.len() || !old(self).running_view()[i as int]) ==> (r is Continue
                && *final(self) == *old(self)),
            !old(self).is_finished() && i < g.len() && old(self).running_view()[i as int] ==> match outcome {
                Outcome::Produced(p) => {
                    &&& r is Continue
                    &&& !final(self).is_finished()
                    &&& final(self).results_view() == old(self).results_view().update(i as int, Some(p))
                    &&& final(self).running_view() == old(self).running_view().update(i as int, false)
                    &&& final(self).retries_view() == old(self).retries_view()
                },
                Outcome::Failed(msg) => {
                    &&& r matches Step::Finished(Output::NodeFailed { duration, name, error }) && duration
                        == elapsed && name@ == g.nodes_view()[i as int].name@ && error == msg
                    &&& final(self).is_finished()
                    &&& final(self).results_view() == old(self).results_view()
                    &&& final(self).running_view() == old(self).running_view()
                    &&& final(self).retries_view() == old(self).retries_view()
                },
                Outcome::RetryAfter(d) => {
                    &&& r == (Step::Retry {
                        index: i,
                        retry: final(self).retries_view()[i as int],
                        delay: d,
                    })
                    &&& !final(self).is_finished()
                    &&& final(self).results_view() == old(self).results_view()
                    &&& final(self).running_view() == old(self).running_view()
                    &&& final(self).retries_view() == old(self).retries_view().update(
                        i as int,
                        if old(self).retries_view()[i as int] < u32::MAX {
                            (old(self).retries_view()[i as int] + 1) as u32
                        } else {
                            old(self).retries_view()[i as int]
                        },
                    )
                },
            },
    {
        if self.finished || i >= g.node_count() || !self.running[i] {
            return Step::Continue;
        }
        let ghost before = *self;
        assert(before.node_ok(g, i as int));
        match outcome {
            Outcome::Produced(p) => {
                self.results.set(i, Some(p));
                self.running.set(i, false);
                proof {
                    assert(self.targets_view() == before.targets_view());
                    assert(self.inputs_view() == before.inputs_view());
                    assert forall|j: int| 0 <= j < g.len() implies #[trigger] self.node_ok(g, j) by {
                        assert(before.node_ok(g, j));
                        assert(before.node_ok(g, i as int));
                        if before.deps_done(g, j) {
                            assert forall|k: int| 0 <= k < g.adj_view()[j].len() implies #[trigger] self.has_result(
                                g.adj_view()[j][k] as int,
                            ) by {
                                assert(before.has_result(g.adj_view()[j][k] as int));
                            }
                        }
                        if j == i {
                            assert(!before.given(g, j));
                        }
                    }
                }
                Step::Continue
            },
            Outcome::Failed(msg) => {
                self.finished = true;
                proof {
                    Self::lemma_same_views_keep_wf(&before, self, g);
                }
                let name = g.node_name(i).clone();
                Step::Finished(Output::NodeFailed { duration: elapsed, name, error: msg })
            },
            Outcome::RetryAfter(delay) => {
                let c: u32 = self.retries[i];
                let next: u32 = if c < u32::MAX {
                    c + 1
                } else {
                    c
                };
                self.retries.set(i, next);
                proof {
                    Self::lemma_same_views_keep_wf(&before, self, g);
                }
                Step::Retry { index: i, retry: next, delay }
            },
        }
    }

    /// Ends the run because the task of running node `i` faulted. Returns `None`,
    /// changing nothing, for a node that is not running or after the run ended.
    pub fn panicked(&mut self, g: &Graph, i: usize, diagnostic: String, elapsed: std::time::Duration) -> (r: Option<Output>)
        requires
            old(self).wf(g),
        ensures
            final(self).wf(g),
            (old(self).is_finished() || i >= g.len() || !old(self).running_view()[i as int]) ==> (r is None
                && *final(self) == *old(self)),
            !old(self).is_finished() && i < g.len() && old(self).running_view()[i as int] ==> {
                &&& r matches Some(Output::NodePanic { duration, name, error }) && duration == elapsed
                    && name@ == g.nodes_view()[i as int].name@ && error == diagnostic
                &&& final(self).is_finished()
                &&& final(self).results_view() == old(self).results_view()
                &&& final(self).pending_view() == old(self).pending_view()
                &&& final(self).running_view() == old(self).running_view()
                &&& final(self).retries_view() == old(self).retries_view()
                &&& final(self).targets_view() == old(self).targets_view()
                &&& final(self).inputs_view() == old(self).inputs_view()
            },
    {
        if self.finished || i >= g.node_count() || !self.running[i] {
            return None;
        }
        let ghost before = *self;
        self.finished = true;
        proof {
            Self::lemma_same_views_keep_wf(&before, self, g);
        }
        let name = g.node_name(i).clone();
        Some(Output::NodePanic { duration: elapsed, name, error: diagnostic })
    }

    /// Ends the run because its cancellation handle fired. Returns `None`,
    /// changing nothing, after the run ended.
    pub fn cancel(&mut self, g: &Graph, elapsed: std::time::Duration) -> (r: Option<Output>)
        requires
            old(self).wf(g),
        ensures
            final(self).wf(g),
            old(self).is_finished() ==> r is None && *final(self) == *old(self),
            !old(self).is_finished() ==> {
                &&& r == Some(Output::Stopped { duration: elapsed })
                &&& final(self).is_finished()
                &&& final(self).results_view() == old(self).results_view()
                &&& final(self).pending_view() == old(self).pending_view()
                &&& final(self).running_view() == old(self).running_view()
                &&& final(self).retries_view() == old(self).retries_view()
                &&& final(self).targets_view() == old(self).targets_view()
                &&& final(self).inputs_view() == old(self).inputs_view()
            },
    {
        if self.finished {
            return None;
        }
        let ghost before = *self;
        self.finished = true;
        proof {
            Self::lemma_same_views_keep_wf(&before, self, g);
        }
        Some(Output::Stopped { duration: elapsed })
    }

    /// Whether the run is over.
    pub fn finished(&self) -> (r: bool)
        ensures
            r == self.is_finished(),
    {
        self.finished
    }

    /// Whether node `i` was started and has not yet succeeded.
    pub fn is_running(&self, g: &Graph, i: usize) -> (r: bool)
        requires
            self.wf(g),
        ensures
            r == (i < g.len() && self.running_view()[i as int]),
    {
        i < self.running.len() && self.running[i]
    }

    /// How often node `i` was retried.
    pub fn retry_count(&self, g: &Graph, i: usize) -> (r: u32)
        requires
            self.wf(g),
            i < g.len(),
        ensures
            r == self.retries_view()[i as int],
    {
        self.retries[i]
    }

    /// The payloads of the dependencies of node `i`, in declared order, or `None`
    /// when one of them has none yet.
    pub fn payloads(&self, g: &Graph, i: usize) -> (r: Option<Vec<&P>>)
        requires
            self.wf(g),
            i < g.len(),
        ensures
            r is Some <==> self.deps_done(g, i as int),
            r matches Some(v) ==> v@.len() == g.adj_view()[i as int].len() && forall|k: int|
                0 <= k < v@.len() ==> *#[trigger] v@[k] == self.result(g.adj_view()[i as int][k] as int),
    {
        let deps = g.deps_of(i);
        let mut v: Vec<&P> = Vec::new();
        let mut k: usize = 0;
        while k < deps.len()
            invariant
                self.wf(g),
                i < g.len(),
                deps@ == g.adj_view()[i as int],
                k <= deps.len(),
                v@.len() == k,
                forall|m: int| 0 <= m < k ==> #[trigger] self.has_result(deps@[m] as int),
                forall|m: int| 0 <= m < k ==> *#[trigger] v@[m] == self.result(deps@[m] as int),
            decreases deps.len() - k,
        {
            assert(deps@[k as int] < g.len());
            match &self.results[deps[k]] {
                Some(p) => {
                    v.push(p);
                },
                None => {
                    assert(!self.has_result(g.adj_view()[i as int][k as int] as int));
                    return None;
                },
            }
            k += 1;
        }
        Some(v)
    }

    /// The payloads recorded during the run, supplied ones included.
    pub fn into_outputs(self, g: &Graph) -> (r: Outputs<P>)
        requires
            self.wf(g),
        ensures
            r.wf(),
            r@ == self.results_map(g),
    {
        let ghost all = self.results_map(g);
        let ghost orig = self.results@;
        let mut results = self.results;
        let mut out: Outputs<P> = Outputs::new();
        proof {
            assert forall|id: u64| #[trigger] g.index_of(id) is Some implies 0 <= g.index_of(id)->Some_0 < g.len() by {
                g.lemma_index_of(id);
            }
        }
        while results.len() > 0
            invariant
                g.wf(),
                orig.len() == g.len(),
                results.len() <= orig.len(),
                results@ == orig.subrange(0, results.len() as int),
                out.wf(),
                forall|id: u64|
                    #[trigger] out@.contains_key(id) <==> (g.index_of(id) matches Some(x) && x >= results.len()
                        && orig[x] is Some),
                forall|id: u64|
                    #[trigger] out@.contains_key(id) ==> Some(out@[id]) == orig[g.index_of(id)->Some_0],
            decreases results.len(),
        {
            let i: usize = results.len() - 1;
            let id: u64 = g.node_id(i);
            proof {
                g.lemma_index_unique(id, i as int);
            }
            let last = results.pop().unwrap();
            assert(last == orig[i as int]);
            match last {
                Some(p) => {
                    out.insert(id, p);
                },
                None => {},
            }
            assert(results@ =~= orig.subrange(0, results.len() as int));
            proof {
                assert forall|k: u64| #[trigger] out@.contains_key(k) <==> (g.index_of(k) matches Some(x) && x
                    >= results.len() && orig[x] is Some) by {
                    if g.index_of(k) is Some && k != id {
                        assert(has_id(g.nodes_view(), k));
                        let w = choose|w: int| 0 <= w < g.len() && #[trigger] g.nodes_view()[w].id == k;
                        g.lemma_index_unique(k, w);
                    }
                }
            }
        }
        proof {
            assert forall|id: u64| #[trigger] out@.contains_key(id) == all.contains_key(id) by {
                g.lemma_index_of(id);
            }
            assert forall|id: u64| #[trigger] out@.contains_key(id) implies out@[id] == all[id] by {
                g.lemma_index_of(id);
            }
            assert(out@ =~= all);
        }
        out
    }
}

} // verus!
