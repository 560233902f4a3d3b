use vstd::prelude::*;

use crate::cycle::rank_or_cycle;
use crate::dag::{
    is_acyclic, is_cycle, path_step, ranks_dependencies_lower, well_indexed,
};
use crate::error::Error;
use crate::node::{
    canonical_nodes, first_with_id, has_id, ids_increasing, is_canonical, is_first_given, locate,
    NodeInfo,
};

verus! {

/// Two first descriptors with different identifiers share a display name.
pub open spec fn has_duplicate_name(input: Seq<NodeInfo>) -> bool {
    exists|i: int, j: int|
        #![trigger input[i], input[j]]
        first_with_id(input, i) && first_with_id(input, j) && input[i].id != input[j].id
            && input[i].name@ == input[j].name@
}

/// The first descriptor `input[j]` lists, at position `k`, an identifier that no
/// descriptor carries.
pub open spec fn dep_missing_at(input: Seq<NodeInfo>, j: int, k: int) -> bool {
    &&& first_with_id(input, j)
    &&& 0 <= k < input[j].deps.len()
    &&& !has_id(input, input[j].deps@[k])
}

pub open spec fn has_missing_dep(input: Seq<NodeInfo>) -> bool {
    exists|j: int, k: int| #[trigger] dep_missing_at(input, j, k)
}

/// The first descriptor with identifier `a` lists `b` among its dependencies.
pub open spec fn id_depends_on(input: Seq<NodeInfo>, a: u64, b: u64) -> bool {
    exists|j: int| first_with_id(input, j) && #[trigger] input[j].id == a && input[j].deps@.contains(b)
}

pub open spec fn id_step(input: Seq<NodeInfo>, path: Seq<u64>, k: int) -> bool {
    id_depends_on(input, path[k], path[k + 1])
}

/// A path of identifiers along dependencies that ends where it starts.
pub open spec fn is_id_cycle(input: Seq<NodeInfo>, path: Seq<u64>) -> bool {
    &&& path.len() >= 2
    &&& path[0] == path.last()
    &&& forall|k: int| 0 <= k < path.len() - 1 ==> #[trigger] id_step(input, path, k)
}

pub open spec fn has_id_cycle(input: Seq<NodeInfo>) -> bool {
    exists|path: Seq<u64>| #[trigger] is_id_cycle(input, path)
}

/// `name` is the display name of the first descriptor with identifier `id`.
pub open spec fn is_name_of(input: Seq<NodeInfo>, id: u64, name: Seq<char>) -> bool {
    exists|j: int| first_with_id(input, j) && #[trigger] input[j].id == id && input[j].name@ == name
}

/// The descriptors form a valid graph: there is one, names are unique, every
/// dependency is known and no dependency path returns to its start.
pub open spec fn builds_graph(input: Seq<NodeInfo>) -> bool {
    &&& input.len() > 0
    &&& !has_duplicate_name(input)
    &&& !has_missing_dep(input)
    &&& !has_id_cycle(input)
}

/// The validated, immutable dependency graph: descriptors ordered by identifier
/// and, for each, the indices of its dependencies.
pub struct Graph {
    nodes: Vec<NodeInfo>,
    adj: Vec<Vec<usize>>,
    rank: Ghost<Seq<usize>>,
}

impl Graph {
    /// The descriptors, ordered by identifier.
    pub closed spec fn nodes_view(&self) -> Seq<NodeInfo> {
        self.nodes@
    }

    /// For each node, the indices of its dependencies in declared order.
    pub closed spec fn adj_view(&self) -> Seq<Seq<usize>> {
        self.adj.deep_view()
    }

    /// A ranking of the nodes that is higher than that of each dependency.
    pub closed spec fn rank_view(&self) -> Seq<usize> {
        self.rank@
    }

    pub open spec fn len(&self) -> nat {
        self.nodes_view().len()
    }

    pub open spec fn id_at(&self, i: int) -> u64 {
        self.nodes_view()[i].id
    }

    /// The index of the node with identifier `id`, if any.
    pub open spec fn index_of(&self, id: u64) -> Option<int> {
        if has_id(self.nodes_view(), id) {
            Some(choose|i: int| 0 <= i < self.len() && self.id_at(i) == id)
        } else {
            None
        }
    }

    pub open spec fn wf(&self) -> bool {
        &&& self.len() > 0
        &&& ids_increasing(self.nodes_view())
        &&& self.adj_view().len() == self.len()
        &&& well_indexed(self.adj_view())
        &&& forall|i: int|
            0 <= i < self.len() ==> #[trigger] self.adj_view()[i].len() == self.nodes_view()[i].deps.len()
        &&& forall|i: int, k: int|
            0 <= i < self.len() && 0 <= k < self.adj_view()[i].len() ==> self.id_at(
                #[trigger] self.adj_view()[i][k] as int,
            ) == self.nodes_view()[i].deps@[k]
        &&& forall|a: int, b: int|
            0 <= a < b < self.len() ==> #[trigger] self.nodes_view()[a].name@
                != #[trigger] self.nodes_view()[b].name@
        &&& is_acyclic(self.adj_view())
        &&& ranks_dependencies_lower(self.adj_view(), self.rank_view())
    }

    pub fn builder() -> (r: Builder)
        ensures
            r@ == Seq::<NodeInfo>::empty(),
    {
        Builder { nodes: Vec::new() }
    }

    /// The number of nodes.
    pub fn node_count(&self) -> (r: usize)
        ensures
            r == self.len(),
    {
        self.nodes.len()
    }

    /// The display name of the node at index `i`.
    pub fn node_name(&self, i: usize) -> (r: &String)
        requires
            i < self.len(),
        ensures
            r@ == self.nodes_view()[i as int].name@,
    {
        &self.nodes[i].name
    }

    /// The identifier of the node at index `i`.
    pub fn node_id(&self, i: usize) -> (r: u64)
        requires
            i < self.len(),
        ensures
            r == self.id_at(i as int),
    {
        self.nodes[i].id
    }

    /// The indices of the dependencies of the node at index `i`.
    pub fn deps_of(&self, i: usize) -> (r: &Vec<usize>)
        requires
            self.wf(),
            i < self.len(),
        ensures
            r@ == self.adj_view()[i as int],
    {
        assert(self.adj@[i as int].deep_view() =~= self.adj@[i as int]@);
        &self.adj[i]
    }

    /// The index of the node with identifier `id`.
    pub fn find(&self, id: u64) -> (r: Option<usize>)
        requires
            self.wf(),
        ensures
            r matches Some(i) ==> i < self.len() && self.id_at(i as int) == id && self.index_of(id)
                == Some(i as int),
            r is None ==> self.index_of(id) is None,
    {
        match locate(&self.nodes, id) {
            Ok(i) => {
                proof {
                    self.lemma_index_unique(id, i as int);
                }
                Some(i)
            },
            Err(_) => None,
        }
    }

    /// `index_of` names an index that holds the identifier.
    pub proof fn lemma_index_of(&self, id: u64)
        requires
            self.wf(),
        ensures
            self.index_of(id) matches Some(x) ==> 0 <= x < self.len() && self.id_at(x) == id,
    {
        if has_id(self.nodes_view(), id) {
            let w = choose|w: int| 0 <= w < self.len() && #[trigger] self.nodes_view()[w].id == id;
            self.lemma_index_unique(id, w);
        }
    }

    /// An index holding `id` is the one `index_of` names.
    pub proof fn lemma_index_unique(&self, id: u64, i: int)
        requires
            self.wf(),
            0 <= i < self.len(),
            self.id_at(i) == id,
        ensures
            self.index_of(id) == Some(i),
    {
        assert(self.nodes_view()[i].id == id);
        assert(has_id(self.nodes_view(), id));
        let c = choose|c: int| 0 <= c < self.len() && self.id_at(c) == id;
        if c < i {
            assert(self.nodes_view()[c].id < self.nodes_view()[i].id);
        } else if c > i {
            assert(self.nodes_view()[i].id < self.nodes_view()[c].id);
        }
    }
}

/// Collects node descriptors; `build` validates them into a [`Graph`].
pub struct Builder {
    nodes: Vec<NodeInfo>,
}

impl View for Builder {
    type V = Seq<NodeInfo>;

    closed spec fn view(&self) -> Seq<NodeInfo> {
        self.nodes@
    }
}

impl Builder {
    /// Adds a node descriptor.
    pub fn add_node(&mut self, node: NodeInfo)
        ensures
            final(self)@ == old(self)@.push(node),
    {
        self.nodes.push(node);
    }

    /// Adds a node descriptor.
    pub fn with_node(self, node: NodeInfo) -> (r: Self)
        ensures
            r@ == self@.push(node),
    {
        let mut b = self;
        b.add_node(node);
        b
    }
}

/// First descriptors with the same identifier are the same descriptor.
proof fn lemma_first_unique(input: Seq<NodeInfo>, i: int, j: int)
    requires
        first_with_id(input, i),
        first_with_id(input, j),
        input[i].id == input[j].id,
    ensures
        i == j,
{
    if i < j {
        assert(input[i].id != input[j].id);
    } else if j < i {
        assert(input[j].id != input[i].id);
    }
}

/// Each first descriptor stands in a canonical sequence.
proof fn lemma_canonical_holds_first(input: Seq<NodeInfo>, kept: Seq<NodeInfo>, i: int) -> (k: int)
    requires
        is_canonical(input, kept),
        first_with_id(input, i),
    ensures
        0 <= k < kept.len(),
        kept[k] == input[i],
{
    assert(has_id(kept, input[i].id));
    let k = choose|k: int| 0 <= k < kept.len() && #[trigger] kept[k].id == input[i].id;
    assert(is_first_given(input, kept[k]));
    let j = choose|j: int| first_with_id(input, j) && input[j] == kept[k];
    lemma_first_unique(input, i, j);
    k
}

/// A canonical sequence carries exactly the identifiers of the input.
proof fn lemma_canonical_ids(input: Seq<NodeInfo>, kept: Seq<NodeInfo>, id: u64)
    requires
        is_canonical(input, kept),
    ensures
        has_id(kept, id) <==> has_id(input, id),
{
    if has_id(kept, id) {
        let k = choose|k: int| 0 <= k < kept.len() && #[trigger] kept[k].id == id;
        assert(is_first_given(input, kept[k]));
        let j = choose|j: int| first_with_id(input, j) && input[j] == kept[k];
        assert(input[j].id == id);
    }
    if has_id(input, id) {
        let j = choose|j: int| 0 <= j < input.len() && #[trigger] input[j].id == id;
        assert(has_id(kept, input[j].id));
    }
}


/// Ordered by identifier, an identifier sits at one index only.
proof fn lemma_increasing_unique(s: Seq<NodeInfo>, a: int, b: int)
    requires
        ids_increasing(s),
        0 <= a < s.len(),
        0 <= b < s.len(),
        s[a].id == s[b].id,
    ensures
        a == b,
{
    if a < b {
        assert(s[a].id < s[b].id);
    } else if b < a {
        assert(s[b].id < s[a].id);
    }
}

/// `nm` is the display name of two first descriptors with different identifiers.
pub open spec fn shares_name(input: Seq<NodeInfo>, nm: Seq<char>) -> bool {
    exists|i: int, j: int|
        #![trigger input[i], input[j]]
        first_with_id(input, i) && first_with_id(input, j) && input[i].id != input[j].id
            && input[i].name@ == nm && input[j].name@ == nm
}

/// `adj` lists, for each node of `kept`, the indices of its dependencies.
pub open spec fn resolves(kept: Seq<NodeInfo>, adj: Seq<Seq<usize>>) -> bool {
    &&& adj.len() == kept.len()
    &&& forall|i: int| 0 <= i < kept.len() ==> #[trigger] adj[i].len() == kept[i].deps.len()
    &&& forall|i: int, k: int|
        0 <= i < kept.len() && 0 <= k < adj[i].len() ==> #[trigger] adj[i][k] < kept.len()
            && kept[adj[i][k] as int].id == kept[i].deps@[k]
}

fn duplicate_name(nodes: &Vec<NodeInfo>) -> (r: Option<usize>)
    ensures
        r matches Some(a) ==> a < nodes.len() && exists|b: int|
            0 <= b < nodes.len() && b != a && #[trigger] nodes@[b].name@ == nodes@[a as int].name@,
        r is None ==> forall|a: int, b: int|
            0 <= a < b < nodes.len() ==> #[trigger] nodes@[a].name@ != #[trigger] nodes@[b].name@,
{
    let n: usize = nodes.len();
    let mut b: usize = 0;
    while b < n
        invariant
            n == nodes.len(),
            b <= n,
            forall|x: int, y: int|
                0 <= x < y < b ==> #[trigger] nodes@[x].name@ != #[trigger] nodes@[y].name@,
        decreases n - b,
    {
        let mut a: usize = 0;
        while a < b
            invariant
                n == nodes.len(),
                a <= b < n,
                forall|x: int, y: int|
                    0 <= x < y < b ==> #[trigger] nodes@[x].name@ != #[trigger] nodes@[y].name@,
                forall|x: int| 0 <= x < a ==> #[trigger] nodes@[x].name@ != nodes@[b as int].name@,
            decreases b - a,
        {
            if nodes[a].name == nodes[b].name {
                assert(nodes@[b as int].name@ == nodes@[a as int].name@);
                return Some(a);
            }
            a += 1;
        }
        b += 1;
    }
    None
}

fn resolve_deps(nodes: &Vec<NodeInfo>) -> (r: Result<Vec<Vec<usize>>, (usize, usize)>)
    requires
        ids_increasing(nodes@),
    ensures
        r matches Ok(adj) ==> resolves(nodes@, adj.deep_view()),
        r matches Err((i, k)) ==> i < nodes.len() && k < nodes@[i as int].deps.len() && !has_id(
            nodes@,
            nodes@[i as int].deps@[k as int],
        ),
{
    let n: usize = nodes.len();
    let mut adj: Vec<Vec<usize>> = Vec::new();
    let mut i: usize = 0;
    while i < n
        invariant
            n == nodes.len(),
            ids_increasing(nodes@),
            i <= n,
            adj.len() == i,
            forall|x: int| 0 <= x < i ==> #[trigger] adj@[x]@.len() == nodes@[x].deps.len(),
            forall|x: int, k: int|
                0 <= x < i && 0 <= k < adj@[x]@.len() ==> #[trigger] adj@[x]@[k] < n
                    && nodes@[adj@[x]@[k] as int].id == nodes@[x].deps@[k],
        decreases n - i,
    {
        let deps = &nodes[i].deps;
        let mut row: Vec<usize> = Vec::new();
        let mut k: usize = 0;
        while k < deps.len()
            invariant
                n == nodes.len(),
                ids_increasing(nodes@),
                i < n,
                deps == nodes@[i as int].deps,
                k <= deps.len(),
                row.len() == k,
                forall|m: int|
                    0 <= m < k ==> #[trigger] row@[m] < n && nodes@[row@[m] as int].id == deps@[m],
            decreases deps.len() - k,
        {
            match locate(nodes, deps[k]) {
                Ok(x) => {
                    row.push(x);
                },
                Err(_) => {
                    return Err((i, k));
                },
            }
            k += 1;
        }
        adj.push(row);
        i += 1;
    }
    assert(adj.deep_view().len() == nodes@.len());
    assert forall|x: int| 0 <= x < nodes@.len() implies #[trigger] adj.deep_view()[x] == adj@[x]@ by {
        assert(adj@[x].deep_view() =~= adj@[x]@);
    }
    Ok(adj)
}

/// A cycle of indices maps to a cycle of identifiers.
proof fn lemma_index_cycle_to_ids(
    input: Seq<NodeInfo>,
    kept: Seq<NodeInfo>,
    adj: Seq<Seq<usize>>,
    path: Seq<usize>,
)
    requires
        is_canonical(input, kept),
        resolves(kept, adj),
        is_cycle(adj, path),
    ensures
        is_id_cycle(input, Seq::new(path.len(), |k: int| kept[path[k] as int].id)),
{
    let ids = Seq::new(path.len(), |k: int| kept[path[k] as int].id);
    assert forall|k: int| 0 <= k < ids.len() - 1 implies #[trigger] id_step(input, ids, k) by {
        assert(path_step(adj, path, k));
        let u = path[k] as int;
        let m = choose|m: int| 0 <= m < adj[u].len() && adj[u][m] == path[k + 1];
        assert(kept[adj[u][m] as int].id == kept[u].deps@[m]);
        assert(kept[u].deps@.contains(ids[k + 1]));
        assert(is_first_given(input, kept[u]));
        let j = choose|j: int| first_with_id(input, j) && input[j] == kept[u];
        assert(input[j].id == ids[k]);
    }
}

/// A cycle of identifiers maps to a cycle of indices.
proof fn lemma_id_cycle_to_indices(
    input: Seq<NodeInfo>,
    kept: Seq<NodeInfo>,
    adj: Seq<Seq<usize>>,
    path: Seq<u64>,
)
    requires
        is_canonical(input, kept),
        resolves(kept, adj),
        is_id_cycle(input, path),
        kept.len() <= usize::MAX,
    ensures
        !is_acyclic(adj),
{
    let idx = |id: u64| choose|x: int| 0 <= x < kept.len() && kept[x].id == id;
    assert forall|k: int| 0 <= k < path.len() implies 0 <= #[trigger] idx(path[k]) < kept.len()
        && kept[idx(path[k])].id == path[k] by {
        let kk = if k == path.len() - 1 {
            0
        } else {
            k
        };
        assert(id_step(input, path, kk));
        let j = choose|j: int|
            first_with_id(input, j) && #[trigger] input[j].id == path[kk] && input[j].deps@.contains(
                path[kk + 1],
            );
        let x = lemma_canonical_holds_first(input, kept, j);
        assert(kept[x].id == path[k]);
    }
    let q = Seq::new(path.len(), |k: int| idx(path[k]) as usize);
    assert forall|k: int| 0 <= k < q.len() - 1 implies #[trigger] path_step(adj, q, k) by {
        assert(id_step(input, path, k));
        let j = choose|j: int|
            first_with_id(input, j) && #[trigger] input[j].id == path[k] && input[j].deps@.contains(
                path[k + 1],
            );
        let x = lemma_canonical_holds_first(input, kept, j);
        assert(0 <= idx(path[k]) < kept.len());
        lemma_increasing_unique(kept, x, idx(path[k]));
        let m = choose|m: int| 0 <= m < input[j].deps.len() && input[j].deps@[m] == path[k + 1];
        let y = adj[x][m] as int;
        assert(kept[y].id == path[k + 1]);
        assert(0 <= idx(path[k + 1]) < kept.len());
        lemma_increasing_unique(kept, y, idx(path[k + 1]));
        assert(q[k] as int == x);
        assert(q[k + 1] as int == y);
        assert(adj[x][m] == q[k + 1]);
    }
    assert(is_cycle(adj, q));
}

impl Builder {
    /// Validates the descriptors and builds the graph. Descriptors with an
    /// identifier given before are dropped; the rest are ordered by identifier.
    pub fn build(self) -> (r: Result<Graph, Error>)
        ensures
            r is Ok <==> builds_graph(self@),
            r matches Ok(g) ==> g.wf() && is_canonical(self@, g.nodes_view()),
            (r matches Err(Error::NoNodes)) <==> self@.len() == 0,
            (r matches Err(Error::DuplicateName(_))) <==> self@.len() > 0 && has_duplicate_name(
                self@,
            ),
            r matches Err(Error::DuplicateName(nm)) ==> shares_name(self@, nm@),
            (r matches Err(Error::DependencyNotFound(_, _))) <==> self@.len() > 0
                && !has_duplicate_name(self@) && has_missing_dep(self@),
            r matches Err(Error::DependencyNotFound(nm, id)) ==> exists|j: int, k: int|
                #[trigger] dep_missing_at(self@, j, k) && self@[j].name@ == nm@ && self@[j].deps@[k]
                    == id,
            (r matches Err(Error::Cycle(_))) <==> self@.len() > 0 && !has_duplicate_name(self@)
                && !has_missing_dep(self@) && has_id_cycle(self@),
            r matches Err(Error::Cycle(names)) ==> exists|path: Seq<u64>|
                #[trigger] is_id_cycle(self@, path) && names.len() == path.len() && forall|k: int|
                    0 <= k < path.len() ==> is_name_of(self@, path[k], #[trigger] names@[k]@),
            !(r matches Err(Error::NodeNotFound(_))),
    {
        let ghost input = self@;
        if self.nodes.len() == 0 {
            return Err(Error::NoNodes);
        }
        let kept = canonical_nodes(self.nodes);
        match duplicate_name(&kept) {
            Some(a) => {
                proof {
                    let b = choose|b: int|
                        0 <= b < kept.len() && b != a && #[trigger] kept@[b].name@
                            == kept@[a as int].name@;
                    assert(is_first_given(input, kept@[a as int]));
                    assert(is_first_given(input, kept@[b]));
                    let ja = choose|j: int| first_with_id(input, j) && input[j] == kept@[a as int];
                    let jb = choose|j: int| first_with_id(input, j) && input[j] == kept@[b];
                    if (a as int) < b {
                        assert(kept@[a as int].id < kept@[b].id);
                    } else {
                        assert(kept@[b].id < kept@[a as int].id);
                    }
                    assert(shares_name(input, kept@[a as int].name@));
                    assert(has_duplicate_name(input));
                }
                return Err(Error::DuplicateName(kept[a].name.clone()));
            },
            None => {},
        }
        assert(!has_duplicate_name(input)) by {
            if has_duplicate_name(input) {
                let (i, j) = choose|i: int, j: int|
                    #![trigger input[i], input[j]]
                    first_with_id(input, i) && first_with_id(input, j) && input[i].id != input[j].id
                        && input[i].name@ == input[j].name@;
                let ka = lemma_canonical_holds_first(input, kept@, i);
                let kb = lemma_canonical_holds_first(input, kept@, j);
                if ka < kb {
                    assert(kept@[ka].name@ != kept@[kb].name@);
                } else {
                    assert(kept@[kb].name@ != kept@[ka].name@);
                }
            }
        }
        let adj = match resolve_deps(&kept) {
            Ok(adj) => adj,
            Err((i, k)) => {
                proof {
                    lemma_canonical_ids(input, kept@, kept@[i as int].deps@[k as int]);
                    assert(is_first_given(input, kept@[i as int]));
                    let j = choose|j: int| first_with_id(input, j) && input[j] == kept@[i as int];
                    assert(dep_missing_at(input, j, k as int));
                }
                return Err(Error::DependencyNotFound(kept[i].name.clone(), kept[i].deps[k]));
            },
        };
        let ghost g = adj.deep_view();
        assert(!has_missing_dep(input)) by {
            if has_missing_dep(input) {
                let (j, k) = choose|j: int, k: int| #[trigger] dep_missing_at(input, j, k);
                let x = lemma_canonical_holds_first(input, kept@, j);
                assert(kept@[g[x][k] as int].id == kept@[x].deps@[k]);
                assert(has_id(kept@, kept@[x].deps@[k]));
                lemma_canonical_ids(input, kept@, kept@[x].deps@[k]);
            }
        }
        assert(well_indexed(g)) by {
            assert forall|i: int, k: int| 0 <= i < g.len() && 0 <= k < g[i].len() implies #[trigger] g[i][k]
                < g.len() by {
                assert(g[i][k] < kept.len());
            }
        }
        let rank = match rank_or_cycle(&adj) {
            Err(path) => {
                let mut names: Vec<String> = Vec::new();
                let mut k: usize = 0;
                let ghost ids = Seq::new(path@.len(), |k: int| kept@[path@[k] as int].id);
                proof {
                    lemma_index_cycle_to_ids(input, kept@, g, path@);
                    assert forall|k: int| 0 <= k < path.len() implies #[trigger] path@[k] < kept.len() by {
                        if k < path.len() - 1 {
                            assert(path_step(g, path@, k));
                        } else {
                            assert(path_step(g, path@, 0));
                        }
                    }
                }
                while k < path.len()
                    invariant
                        k <= path.len(),
                        names.len() == k,
                        forall|m: int| 0 <= m < path.len() ==> #[trigger] path@[m] < kept.len(),
                        is_canonical(input, kept@),
                        ids == Seq::new(path@.len(), |k: int| kept@[path@[k] as int].id),
                        forall|m: int| 0 <= m < k ==> is_name_of(input, ids[m], #[trigger] names@[m]@),
                    decreases path.len() - k,
                {
                    let x: usize = path[k];
                    proof {
                        assert(is_first_given(input, kept@[x as int]));
                        let j = choose|j: int| first_with_id(input, j) && input[j] == kept@[x as int];
                        assert(input[j].id == ids[k as int]);
                    }
                    names.push(kept[x].name.clone());
                    k += 1;
                }
                assert(is_id_cycle(input, ids));
                return Err(Error::Cycle(names));
            },
            Ok(rank) => rank,
        };
        assert(!has_id_cycle(input)) by {
            if has_id_cycle(input) {
                let p = choose|p: Seq<u64>| #[trigger] is_id_cycle(input, p);
                lemma_id_cycle_to_indices(input, kept@, g, p);
            }
        }
        let graph = Graph { nodes: kept, adj, rank: Ghost(rank@) };
        assert(graph.nodes_view() == kept@);
        assert(graph.adj_view() == g);
        assert(has_id(kept@, input[0].id));
        Ok(graph)
    }
}

} // verus!
