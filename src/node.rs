use vstd::prelude::*;

verus! {

/// What the scheduler knows of a node: its identifier, its display name and the
/// identifiers of its dependencies in the positional order of the producer's inputs.
pub struct NodeInfo {
    pub id: u64,
    pub name: String,
    pub deps: Vec<u64>,
}

impl NodeInfo {
    pub fn new(id: u64, name: String, deps: Vec<u64>) -> (r: Self)
        ensures
            r.id == id,
            r.name == name,
            r.deps == deps,
    {
        NodeInfo { id, name, deps }
    }
}

/// Some descriptor in `nodes` carries `id`.
pub open spec fn has_id(nodes: Seq<NodeInfo>, id: u64) -> bool {
    exists|i: int| 0 <= i < nodes.len() && #[trigger] nodes[i].id == id
}

/// `nodes[j]` is the first descriptor in `nodes` with its identifier.
pub open spec fn first_with_id(nodes: Seq<NodeInfo>, j: int) -> bool {
    &&& 0 <= j < nodes.len()
    &&& forall|i: int| 0 <= i < j ==> #[trigger] nodes[i].id != nodes[j].id
}

/// Identifiers strictly increase along `nodes`.
pub open spec fn ids_increasing(nodes: Seq<NodeInfo>) -> bool {
    forall|a: int, b: int| 0 <= a < b < nodes.len() ==> #[trigger] nodes[a].id < #[trigger] nodes[b].id
}

/// `node` is the first descriptor in `input` with its identifier.
pub open spec fn is_first_given(input: Seq<NodeInfo>, node: NodeInfo) -> bool {
    exists|j: int| first_with_id(input, j) && input[j] == node
}

/// `kept` holds, ordered by identifier, the first descriptor given for each
/// identifier that occurs in `input`.
pub open spec fn is_canonical(input: Seq<NodeInfo>, kept: Seq<NodeInfo>) -> bool {
    &&& ids_increasing(kept)
    &&& forall|k: int| 0 <= k < kept.len() ==> #[trigger] is_first_given(input, kept[k])
    &&& forall|j: int| 0 <= j < input.len() ==> has_id(kept, #[trigger] input[j].id)
}

/// Finds `id` in `nodes`, ordered by identifier: `Ok` with its index, or `Err`
/// with the index at which it would be inserted.
pub fn locate(nodes: &Vec<NodeInfo>, id: u64) -> (r: Result<usize, usize>)
    requires
        ids_increasing(nodes@),
    ensures
        r matches Ok(i) ==> i < nodes.len() && nodes@[i as int].id == id,
        r matches Err(p) ==> p <= nodes.len() && (forall|a: int|
            0 <= a < p ==> #[trigger] nodes@[a].id < id) && (forall|a: int|
            p <= a < nodes.len() ==> #[trigger] nodes@[a].id > id),
        r is Err <==> !has_id(nodes@, id),
{
    let mut lo: usize = 0;
    let mut hi: usize = nodes.len();
    while lo < hi
        invariant
            lo <= hi <= nodes.len(),
            ids_increasing(nodes@),
            forall|a: int| 0 <= a < lo ==> #[trigger] nodes@[a].id < id,
            forall|a: int| hi <= a < nodes.len() ==> #[trigger] nodes@[a].id > id,
        decreases hi - lo,
    {
        let mid: usize = lo + (hi - lo) / 2;
        let m: u64 = nodes[mid].id;
        if m == id {
            return Ok(mid);
        } else if m < id {
            assert forall|a: int| 0 <= a < mid + 1 implies #[trigger] nodes@[a].id < id by {
                if a < mid {
                    assert(nodes@[a].id < nodes@[mid as int].id);
                }
            }
            lo = mid + 1;
        } else {
            assert forall|a: int| mid <= a < nodes.len() implies #[trigger] nodes@[a].id > id by {
                if a > mid {
                    assert(nodes@[mid as int].id < nodes@[a].id);
                }
            }
            hi = mid;
        }
    }
    assert forall|i: int| 0 <= i < nodes.len() implies #[trigger] nodes@[i].id != id by {
        if i < lo {
            assert(nodes@[i].id < id);
        } else {
            assert(nodes@[i].id > id);
        }
    }
    Err(lo)
}

/// Keeps, ordered by identifier, the first descriptor given for each identifier.
pub fn canonical_nodes(input: Vec<NodeInfo>) -> (kept: Vec<NodeInfo>)
    ensures
        is_canonical(input@, kept@),
        kept.len() <= input.len(),
{
    let ghost orig = input@;
    let total: usize = input.len();
    let mut rest = input;
    let mut kept: Vec<NodeInfo> = Vec::new();
    let ghost mut src: Seq<int> = Seq::empty();
    let mut c: usize = 0;
    while rest.len() > 0
        invariant
            c + rest.len() == orig.len(),
            orig.len() == total,
            rest@ == orig.subrange(c as int, orig.len() as int),
            ids_increasing(kept@),
            src.len() == kept.len(),
            kept.len() <= c,
            forall|k: int|
                0 <= k < kept.len() ==> 0 <= #[trigger] src[k] < c && first_with_id(orig, src[k])
                    && kept@[k] == orig[src[k]],
            forall|j: int| 0 <= j < c ==> has_id(kept@, #[trigger] orig[j].id),
        decreases rest.len(),
    {
        let node = rest.remove(0);
        assert(node == orig[c as int]);
        match locate(&kept, node.id) {
            Ok(i) => {
                assert(kept@[i as int].id == orig[c as int].id);
            },
            Err(p) => {
                proof {
                    assert forall|i: int| 0 <= i < c implies #[trigger] orig[i].id != orig[c as int].id by {
                        assert(has_id(kept@, orig[i].id));
                    }
                }
                let ghost old_kept = kept@;
                kept.insert(p, node);
                proof {
                    src = src.insert(p as int, c as int);
                    assert forall|a: int, b: int| 0 <= a < b < kept.len() implies #[trigger] kept@[a].id
                        < #[trigger] kept@[b].id by {
                        if b < p {
                        } else if a < p && b == p {
                        } else if a < p {
                            assert(kept@[b] == old_kept[b - 1]);
                        } else if a == p {
                            assert(kept@[b] == old_kept[b - 1]);
                        } else {
                            assert(kept@[a] == old_kept[a - 1]);
                            assert(kept@[b] == old_kept[b - 1]);
                        }
                    }
                    assert forall|j: int| 0 <= j < c implies has_id(kept@, #[trigger] orig[j].id) by {
                        let i = choose|i: int| 0 <= i < old_kept.len() && #[trigger] old_kept[i].id == orig[j].id;
                        if i < p {
                            assert(kept@[i].id == orig[j].id);
                        } else {
                            assert(kept@[i + 1].id == orig[j].id);
                        }
                    }
                    assert(kept@[p as int].id == orig[c as int].id);
                }
            },
        }
        c = c + 1;
        assert(rest@ =~= orig.subrange(c as int, orig.len() as int));
    }
    proof {
        assert(orig.subrange(0, orig.len() as int) =~= orig);
        assert forall|k: int| 0 <= k < kept.len() implies #[trigger] is_first_given(orig, kept@[k]) by {
            assert(first_with_id(orig, src[k]) && kept@[k] == orig[src[k]]);
        }
    }
    kept
}

} // verus!
