use vstd::prelude::*;

use crate::dag::lemma_index_set_bounded;
use crate::error::Error;
use crate::graph::Graph;
use crate::node::has_id;
use crate::outputs::{entries_map, keys_unique, lemma_entry_value, Outputs};

verus! {

/// What one execution must compute and what is already known.
pub struct Job<P> {
    targets: Vec<u64>,
    inputs: Outputs<P>,
}

impl<P> Job<P> {
    pub closed spec fn wf(&self) -> bool {
        self.inputs.wf()
    }

    /// The identifiers the execution must produce.
    pub closed spec fn targets_view(&self) -> Set<u64> {
        self.targets@.to_set()
    }

    /// The payloads supplied beforehand, by identifier.
    pub closed spec fn inputs_view(&self) -> Map<u64, P> {
        self.inputs@
    }

    /// An empty job: no targets, no inputs.
    pub fn new() -> (r: Self)
        ensures
            r.wf(),
            r.targets_view() == Set::<u64>::empty(),
            r.inputs_view() == Map::<u64, P>::empty(),
    {
        let r = Job { targets: Vec::new(), inputs: Outputs::new() };
        assert(r.targets_view() =~= Set::<u64>::empty());
        r
    }

    /// Adds `id` to the targets; adding it again changes nothing.
    pub fn target(&mut self, id: u64)
        requires
            old(self).wf(),
        ensures
            final(self).wf(),
            final(self).targets_view() == old(self).targets_view().insert(id),
            final(self).inputs_view() == old(self).inputs_view(),
    {
        let ghost before = self.targets@;
        let mut i: usize = 0;
        while i < self.targets.len()
            invariant
                self.wf(),
                self.targets@ == before,
                self.inputs == old(self).inputs,
                i <= self.targets.len(),
                forall|j: int| 0 <= j < i ==> self.targets@[j] != id,
            decreases self.targets.len() - i,
        {
            if self.targets[i] == id {
                assert(before[i as int] == id);
                assert(before.to_set().insert(id) =~= before.to_set());
                return;
            }
            i += 1;
        }
        self.targets.push(id);
        assert(self.targets@ == before.push(id));
        assert(self.targets@.to_set() =~= before.to_set().insert(id)) by {
            assert forall|k: u64| #[trigger] self.targets@.contains(k) == (before.contains(k) || k == id) by {
                if self.targets@.contains(k) && k != id {
                    let j = choose|j: int| 0 <= j < self.targets@.len() && self.targets@[j] == k;
                    assert(before[j] == k);
                }
                if before.contains(k) {
                    let j = choose|j: int| 0 <= j < before.len() && before[j] == k;
                    assert(self.targets@[j] == k);
                }
                assert(self.targets@[before.len() as int] == id);
            }
        }
    }

    /// Adds `id` to the targets.
    pub fn with_target(self, id: u64) -> (r: Self)
        requires
            self.wf(),
        ensures
            r.wf(),
            r.targets_view() == self.targets_view().insert(id),
            r.inputs_view() == self.inputs_view(),
    {
        let mut j = self;
        j.target(id);
        j
    }

    /// Supplies `payload` for `id`: that node and, unless another target needs
    /// them, its dependencies are not run.
    pub fn input(&mut self, id: u64, payload: P)
        requires
            old(self).wf(),
        ensures
            final(self).wf(),
            final(self).targets_view() == old(self).targets_view(),
            final(self).inputs_view() == old(self).inputs_view().insert(id, payload),
    {
        self.inputs.insert(id, payload);
    }

    /// Supplies `payload` for `id`.
    pub fn with_input(self, id: u64, payload: P) -> (r: Self)
        requires
            self.wf(),
        ensures
            r.wf(),
            r.targets_view() == self.targets_view(),
            r.inputs_view() == self.inputs_view().insert(id, payload),
    {
        let mut j = self;
        j.input(id, payload);
        j
    }

    /// Supplies every payload of `outputs`, typically those of an earlier run,
    /// so that a new run resumes where that one stopped.
    pub fn add_for_resume(&mut self, outputs: Outputs<P>)
        requires
            old(self).wf(),
            outputs.wf(),
        ensures
            final(self).wf(),
            final(self).targets_view() == old(self).targets_view(),
            final(self).inputs_view() == old(self).inputs_view().union_prefer_right(outputs@),
    {
        let ghost start = self.inputs@;
        let ghost all = outputs@;
        let mut entries = outputs.into_entries();
        let ghost orig = entries@;
        let ghost mut n: int = 0;
        while entries.len() > 0
            invariant
                self.wf(),
                self.targets_view() == old(self).targets_view(),
                keys_unique(orig),
                entries_map(orig) == all,
                0 <= n <= orig.len(),
                entries@ == orig.subrange(n, orig.len() as int),
                self.inputs@ == start.union_prefer_right(entries_map(orig.subrange(0, n))),
            decreases entries.len(),
        {
            let ghost done_map = entries_map(orig.subrange(0, n));
            let (id, payload) = entries.remove(0);
            assert((id, payload) == orig[n]);
            self.inputs.insert(id, payload);
            proof {
                let pre = orig.subrange(0, n);
                let post = orig.subrange(0, n + 1);
                assert(post == pre.push(orig[n]));
                assert(keys_unique(post));
                assert(keys_unique(pre));
                assert forall|k: u64| #[trigger] entries_map(post).contains_key(k) == (entries_map(
                    pre,
                ).contains_key(k) || k == id) by {
                    if entries_map(post).contains_key(k) && k != id {
                        let j = choose|j: int| 0 <= j < post.len() && #[trigger] post[j].0 == k;
                        assert(pre[j].0 == k);
                    }
                    if entries_map(pre).contains_key(k) {
                        let j = choose|j: int| 0 <= j < pre.len() && #[trigger] pre[j].0 == k;
                        assert(post[j].0 == k);
                    }
                    assert(post[n].0 == id);
                }
                assert forall|k: u64| #[trigger] entries_map(post).contains_key(k) implies entries_map(
                    post,
                )[k] == entries_map(pre).insert(id, payload)[k] by {
                    let j = choose|j: int| 0 <= j < post.len() && #[trigger] post[j].0 == k;
                    lemma_entry_value(post, j);
                    if j < n {
                        lemma_entry_value(pre, j);
                    }
                }
                assert(entries_map(post) =~= entries_map(pre).insert(id, payload));
                assert(self.inputs@ =~= start.union_prefer_right(entries_map(post)));
                n = n + 1;
            }
            assert(entries@ =~= orig.subrange(n, orig.len() as int));
        }
        assert(orig.subrange(0, n) =~= orig);
    }

    /// Supplies every payload of `outputs`.
    pub fn with_outputs(self, outputs: Outputs<P>) -> (r: Self)
        requires
            self.wf(),
            outputs.wf(),
        ensures
            r.wf(),
            r.targets_view() == self.targets_view(),
            r.inputs_view() == self.inputs_view().union_prefer_right(outputs@),
    {
        let mut j = self;
        j.add_for_resume(outputs);
        j
    }

    /// The targets, each once.
    pub fn targets(&self) -> (r: &Vec<u64>)
        ensures
            r@.to_set() == self.targets_view(),
    {
        &self.targets
    }

    /// Whether `id` is a target.
    pub fn has_target(&self, id: u64) -> (r: bool)
        ensures
            r == self.targets_view().contains(id),
    {
        let mut i: usize = 0;
        while i < self.targets.len()
            invariant
                i <= self.targets.len(),
                forall|j: int| 0 <= j < i ==> self.targets@[j] != id,
            decreases self.targets.len() - i,
        {
            if self.targets[i] == id {
                assert(self.targets@[i as int] == id);
                return true;
            }
            i += 1;
        }
        false
    }

    /// Whether `id` was supplied.
    pub fn has_input(&self, id: u64) -> (r: bool)
        requires
            self.wf(),
        ensures
            r == self.inputs_view().contains_key(id),
    {
        self.inputs.contains(id)
    }

    /// Splits the job into its targets and its supplied payloads.
    pub fn into_parts(self) -> (r: (Vec<u64>, Outputs<P>))
        requires
            self.wf(),
        ensures
            r.0@.to_set() == self.targets_view(),
            r.1.wf(),
            r.1@ == self.inputs_view(),
    {
        (self.targets, self.inputs)
    }
}

/// Every target and every supplied identifier names a node of `g`.
pub open spec fn job_fits<P>(g: &Graph, job: &Job<P>) -> bool {
    &&& forall|id: u64| #[trigger] job.targets_view().contains(id) ==> has_id(g.nodes_view(), id)
    &&& forall|id: u64| #[trigger] job.inputs_view().contains_key(id) ==> has_id(g.nodes_view(), id)
}

impl Graph {
    /// Checks that every target and every input of `job` names a node of the graph.
    pub fn validate_job<P>(&self, job: &Job<P>) -> (r: Result<(), Error>)
        requires
            self.wf(),
            job.wf(),
        ensures
            r is Ok <==> job_fits(self, job),
            r matches Err(e) ==> e matches Error::NodeNotFound(id) && (job.targets_view().contains(id)
                || job.inputs_view().contains_key(id)) && !has_id(self.nodes_view(), id),
    {
        let ids = job.inputs.ids();
        let mut i: usize = 0;
        while i < ids.len()
            invariant
                self.wf(),
                i <= ids.len(),
                ids@.to_set() == job.inputs_view().dom(),
                forall|j: int| 0 <= j < i ==> has_id(self.nodes_view(), #[trigger] ids@[j]),
            decreases ids.len() - i,
        {
            if self.find(ids[i]).is_none() {
                assert(ids@.to_set().contains(ids@[i as int]));
                return Err(Error::NodeNotFound(ids[i]));
            }
            i += 1;
        }
        let targets = job.targets();
        let mut t: usize = 0;
        while t < targets.len()
            invariant
                self.wf(),
                t <= targets.len(),
                targets@.to_set() == job.targets_view(),
                forall|j: int| 0 <= j < t ==> has_id(self.nodes_view(), #[trigger] targets@[j]),
            decreases targets.len() - t,
        {
            if self.find(targets[t]).is_none() {
                assert(targets@.to_set().contains(targets@[t as int]));
                return Err(Error::NodeNotFound(targets[t]));
            }
            t += 1;
        }
        proof {
            assert forall|id: u64| #[trigger] job.targets_view().contains(id) implies has_id(
                self.nodes_view(),
                id,
            ) by {
                assert(targets@.to_set().contains(id));
                let j = choose|j: int| 0 <= j < targets@.len() && targets@[j] == id;
                assert(has_id(self.nodes_view(), targets@[j]));
            }
            assert forall|id: u64| #[trigger] job.inputs_view().contains_key(id) implies has_id(
                self.nodes_view(),
                id,
            ) by {
                assert(ids@.to_set().contains(id));
                let j = choose|j: int| 0 <= j < ids@.len() && ids@[j] == id;
                assert(has_id(self.nodes_view(), ids@[j]));
            }
        }
        Ok(())
    }
}

/// The node at index `i` has a supplied payload.
pub open spec fn supplied(g: &Graph, given: Set<u64>, i: int) -> bool {
    given.contains(g.id_at(i))
}

/// The node at index `i` is a target.
pub open spec fn is_target(g: &Graph, targets: Set<u64>, i: int) -> bool {
    targets.contains(g.id_at(i))
}

/// `s` holds every target that was not supplied and, with each of its members,
/// every dependency that was not supplied.
pub open spec fn closed_under_deps(g: &Graph, targets: Set<u64>, given: Set<u64>, s: Set<int>) -> bool {
    &&& forall|i: int|
        0 <= i < g.len() && #[trigger] is_target(g, targets, i) && !supplied(g, given, i) ==> s.contains(i)
    &&& forall|i: int, k: int|
        #![trigger s.contains(i), g.adj_view()[i][k]]
        0 <= i < g.len() && s.contains(i) && 0 <= k < g.adj_view()[i].len() && !supplied(
            g,
            given,
            g.adj_view()[i][k] as int,
        ) ==> s.contains(g.adj_view()[i][k] as int)
}

/// The nodes an execution of `job` must run: those in every closed set, that is
/// the unsupplied targets and, transitively, their unsupplied dependencies.
pub open spec fn needed(g: &Graph, targets: Set<u64>, given: Set<u64>) -> Set<int> {
    Set::new(
        |i: int| forall|s: Set<int>| #[trigger] closed_under_deps(g, targets, given, s) ==> s.contains(i),
    )
}

impl<P> Job<P> {
    /// For each node of `graph`, whether this job must run it.
    pub fn pending(&self, graph: &Graph) -> (r: Vec<bool>)
        requires
            self.wf(),
            graph.wf(),
        ensures
            r.len() == graph.len(),
            forall|i: int| 0 <= i < graph.len() ==> #[trigger] r@[i] == needed(graph, self.targets_view(), self.inputs_view().dom()).contains(i),
    {
        let n: usize = graph.node_count();
        let mut given: Vec<bool> = Vec::new();
        let mut marked: Vec<bool> = Vec::new();
        while given.len() < n
            invariant
                graph.wf(),
                self.wf(),
                n == graph.len(),
                given.len() <= n,
                marked.len() == given.len(),
                forall|i: int| 0 <= i < given.len() ==> #[trigger] given@[i] == supplied(graph, self.inputs_view().dom(), i),
                forall|i: int| 0 <= i < marked.len() ==> !#[trigger] marked@[i],
            decreases n - given.len(),
        {
            let i: usize = given.len();
            given.push(self.has_input(graph.node_id(i)));
            marked.push(false);
        }
        let mut stack: Vec<usize> = Vec::new();
        let mut count: usize = 0;
        let ghost mut set: Set<int> = Set::empty();
        assert(set =~= Set::new(|i: int| 0 <= i < n && marked@[i]));
        let targets = self.targets();
        let mut t: usize = 0;
        while t < targets.len()
            invariant
                graph.wf(),
                self.wf(),
                n == graph.len(),
                given.len() == n,
                marked.len() == n,
                forall|i: int| 0 <= i < n ==> #[trigger] given@[i] == supplied(graph, self.inputs_view().dom(), i),
                targets@.to_set() == self.targets_view(),
                t <= targets.len(),
                set == Set::new(|i: int| 0 <= i < n && marked@[i]),
                set.finite(),
                set.len() == count,
                count <= n,
                forall|i: int| 0 <= i < n && #[trigger] marked@[i] ==> !given@[i],
                forall|k: int| 0 <= k < stack.len() ==> #[trigger] stack@[k] < n && marked@[stack@[k] as int],
                forall|i: int| 0 <= i < n && #[trigger] marked@[i] ==> stack@.contains(i as usize),
                forall|s: Set<int>| #[trigger] closed_under_deps(graph, self.targets_view(), self.inputs_view().dom(), s) ==> set.subset_of(s),
                forall|j: int|
                    0 <= j < t ==> (#[trigger] graph.index_of(targets@[j]) matches Some(i) ==> (0 <= i < n
                        && (!given@[i] ==> marked@[i]))),
            decreases targets.len() - t,
        {
            match graph.find(targets[t]) {
                Some(i) => {
                    if !given[i] && !marked[i] {
                        proof {
                            assert(targets@.to_set().contains(targets@[t as int]));
                            assert(is_target(graph, self.targets_view(), i as int));
                            assert forall|s: Set<int>| #[trigger] closed_under_deps(graph, self.targets_view(), self.inputs_view().dom(), s) implies set.insert(
                                i as int,
                            ).subset_of(s) by {
                                assert(s.contains(i as int));
                            }
                            lemma_index_set_bounded(set.insert(i as int), n as int);
                            set = set.insert(i as int);
                        }
                        let ghost pre_stack = stack@;
                        marked.set(i, true);
                        stack.push(i);
                        count = count + 1;
                        proof {
                            assert forall|j: int| 0 <= j < n && #[trigger] marked@[j] implies stack@.contains(
                                j as usize,
                            ) by {
                                if j == i {
                                    assert(stack@[stack.len() - 1] == i);
                                } else {
                                    assert(pre_stack.contains(j as usize));
                                    let x = choose|x: int| 0 <= x < pre_stack.len() && pre_stack[x] == j as usize;
                                    assert(stack@[x] == j as usize);
                                }
                            }
                        }
                        assert(set =~= Set::new(|i: int| 0 <= i < n && marked@[i]));
                    }
                },
                None => {},
            }
            t += 1;
        }
        // Every unsupplied target is marked.
        assert forall|i: int| 0 <= i < n && #[trigger] is_target(graph, self.targets_view(), i) && !supplied(graph, self.inputs_view().dom(), i) implies marked@[i] by {
            assert(self.targets_view().contains(graph.id_at(i)));
            let j = choose|j: int| 0 <= j < targets@.len() && targets@[j] == graph.id_at(i);
            graph.lemma_index_unique(graph.id_at(i), i);
            assert(graph.index_of(targets@[j]) == Some(i));
        }
        while stack.len() > 0
            invariant
                graph.wf(),
                self.wf(),
                n == graph.len(),
                given.len() == n,
                marked.len() == n,
                forall|i: int| 0 <= i < n ==> #[trigger] given@[i] == supplied(graph, self.inputs_view().dom(), i),
                set == Set::new(|i: int| 0 <= i < n && marked@[i]),
                set.finite(),
                set.len() == count,
                count <= n,
                forall|i: int| 0 <= i < n && #[trigger] marked@[i] ==> !given@[i],
                forall|k: int| 0 <= k < stack.len() ==> #[trigger] stack@[k] < n && marked@[stack@[k] as int],
                forall|i: int, k: int|
                    #![trigger marked@[i], graph.adj_view()[i][k]]
                    0 <= i < n && marked@[i] && !stack@.contains(i as usize) && 0 <= k
                        < graph.adj_view()[i].len() && !given@[graph.adj_view()[i][k] as int]
                        ==> marked@[graph.adj_view()[i][k] as int],
                forall|s: Set<int>| #[trigger] closed_under_deps(graph, self.targets_view(), self.inputs_view().dom(), s) ==> set.subset_of(s),
                forall|i: int|
                    0 <= i < n && #[trigger] is_target(graph, self.targets_view(), i) && !supplied(graph, self.inputs_view().dom(), i)
                        ==> marked@[i],
            decreases n - count, stack.len(),
        {
            let ghost old_stack = stack@;
            let i: usize = stack.pop().unwrap();
            let ghost popped_stack = stack@;
            let ghost popped_count = count;
            proof {
                assert(old_stack == popped_stack.push(i));
                assert forall|j: int| 0 <= j < n && j != i && !popped_stack.contains(j as usize) implies !#[trigger] old_stack.contains(
                    j as usize,
                ) by {
                    if old_stack.contains(j as usize) {
                        let x = choose|x: int| 0 <= x < old_stack.len() && old_stack[x] == j as usize;
                        if x < popped_stack.len() {
                            assert(popped_stack[x] == j as usize);
                        }
                    }
                }
            }
            let deps = graph.deps_of(i);
            let mut k: usize = 0;
            while k < deps.len()
                invariant
                    graph.wf(),
                    self.wf(),
                    n == graph.len(),
                    i < n,
                    marked@[i as int],
                    deps@ == graph.adj_view()[i as int],
                    k <= deps.len(),
                    given.len() == n,
                    marked.len() == n,
                    forall|i: int| 0 <= i < n ==> #[trigger] given@[i] == supplied(graph, self.inputs_view().dom(), i),
                    set == Set::new(|i: int| 0 <= i < n && marked@[i]),
                    set.finite(),
                    set.len() == count,
                    count <= n,
                    forall|i: int| 0 <= i < n && #[trigger] marked@[i] ==> !given@[i],
                    forall|k: int| 0 <= k < stack.len() ==> #[trigger] stack@[k] < n && marked@[stack@[k] as int],
                    forall|j: int, m: int|
                        #![trigger marked@[j], graph.adj_view()[j][m]]
                        0 <= j < n && j != i && marked@[j] && !stack@.contains(j as usize) && 0 <= m
                            < graph.adj_view()[j].len() && !given@[graph.adj_view()[j][m] as int]
                            ==> marked@[graph.adj_view()[j][m] as int],
                    forall|m: int|
                        0 <= m < k && !given@[#[trigger] graph.adj_view()[i as int][m] as int]
                            ==> marked@[graph.adj_view()[i as int][m] as int],
                    forall|s: Set<int>| #[trigger] closed_under_deps(graph, self.targets_view(), self.inputs_view().dom(), s) ==> set.subset_of(s),
                    forall|j: int|
                        0 <= j < n && #[trigger] is_target(graph, self.targets_view(), j) && !supplied(graph, self.inputs_view().dom(), j)
                            ==> marked@[j],
                    count >= popped_count,
                    count == popped_count ==> stack@ == popped_stack,
                    popped_count <= n,
                decreases deps.len() - k,
            {
                let d: usize = deps[k];
                assert(d < n);
                if !given[d] && !marked[d] {
                    proof {
                        assert forall|s: Set<int>| #[trigger] closed_under_deps(graph, self.targets_view(), self.inputs_view().dom(), s) implies set.insert(
                            d as int,
                        ).subset_of(s) by {
                            assert(s.contains(i as int));
                            assert(!supplied(graph, self.inputs_view().dom(), graph.adj_view()[i as int][k as int] as int));
                        }
                        lemma_index_set_bounded(set.insert(d as int), n as int);
                        set = set.insert(d as int);
                    }
                    let ghost pre_stack = stack@;
                    marked.set(d, true);
                    stack.push(d);
                    count = count + 1;
                    proof {
                        assert forall|j: int| 0 <= j < n && !stack@.contains(j as usize) implies !#[trigger] pre_stack.contains(
                            j as usize,
                        ) by {
                            if pre_stack.contains(j as usize) {
                                let x = choose|x: int| 0 <= x < pre_stack.len() && pre_stack[x] == j as usize;
                                assert(stack@[x] == j as usize);
                            }
                        }
                        assert(stack@[stack.len() - 1] == d);
                    }
                    assert(set =~= Set::new(|i: int| 0 <= i < n && marked@[i]));
                }
                k += 1;
            }
        }
        proof {
            let ms = Set::new(|i: int| 0 <= i < n && marked@[i]);
            assert(closed_under_deps(graph, self.targets_view(), self.inputs_view().dom(), ms));
            assert forall|i: int| 0 <= i < n implies #[trigger] marked@[i] == needed(graph, self.targets_view(), self.inputs_view().dom()).contains(i) by {
                if marked@[i] {
                    assert forall|s: Set<int>| #[trigger] closed_under_deps(graph, self.targets_view(), self.inputs_view().dom(), s) implies s.contains(i) by {
                        assert(set.subset_of(s));
                    }
                }
            }
        }
        marked
    }
}

/// How a node takes part in a job, as a diagram shows it.
#[derive(Debug, PartialEq, Eq, Structural)]
pub enum Role {
    /// The job asks for it.
    Target,
    /// The job supplies it.
    Given,
    /// The job must run it.
    Active,
    /// The job does not use it.
    Inactive,
}

/// The role of node `i`: being asked for wins over being supplied, which wins
/// over being needed.
pub open spec fn role_of(g: &Graph, targets: Set<u64>, given: Set<u64>, i: int) -> Role {
    if is_target(g, targets, i) {
        Role::Target
    } else if supplied(g, given, i) {
        Role::Given
    } else if needed(g, targets, given).contains(i) {
        Role::Active
    } else {
        Role::Inactive
    }
}

impl Graph {
    /// For each node, its role in `job`.
    pub fn roles<P>(&self, job: &Job<P>) -> (r: Vec<Role>)
        requires
            self.wf(),
            job.wf(),
        ensures
            r.len() == self.len(),
            forall|i: int|
                0 <= i < self.len() ==> #[trigger] r@[i] == role_of(
                    self,
                    job.targets_view(),
                    job.inputs_view().dom(),
                    i,
                ),
    {
        let pending = job.pending(self);
        let n: usize = self.node_count();
        let mut r: Vec<Role> = Vec::new();
        while r.len() < n
            invariant
                self.wf(),
                job.wf(),
                n == self.len(),
                r.len() <= n,
                pending.len() == n,
                forall|i: int|
                    0 <= i < n ==> #[trigger] pending@[i] == needed(
                        self,
                        job.targets_view(),
                        job.inputs_view().dom(),
                    ).contains(i),
                forall|i: int|
                    0 <= i < r.len() ==> #[trigger] r@[i] == role_of(
                        self,
                        job.targets_view(),
                        job.inputs_view().dom(),
                        i,
                    ),
            decreases n - r.len(),
        {
            let i: usize = r.len();
            let id: u64 = self.node_id(i);
            let role = if job.has_target(id) {
                Role::Target
            } else if job.has_input(id) {
                Role::Given
            } else if pending[i] {
                Role::Active
            } else {
                Role::Inactive
            };
            r.push(role);
        }
        r
    }

    /// The index of the node named `name`.
    pub fn find_name(&self, name: &String) -> (r: Option<usize>)
        requires
            self.wf(),
        ensures
            r matches Some(i) ==> i < self.len() && self.nodes_view()[i as int].name@ == name@,
            r is None ==> forall|i: int| 0 <= i < self.len() ==> #[trigger] self.nodes_view()[i].name@ != name@,
    {
        let n: usize = self.node_count();
        let mut i: usize = 0;
        while i < n
            invariant
                self.wf(),
                n == self.len(),
                i <= n,
                forall|j: int| 0 <= j < i ==> #[trigger] self.nodes_view()[j].name@ != name@,
            decreases n - i,
        {
            if self.node_name(i).eq(name) {
                return Some(i);
            }
            i += 1;
        }
        None
    }
}

} // verus!
