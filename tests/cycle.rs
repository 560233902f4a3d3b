use std::any::TypeId;
use std::collections::HashMap;

use ordr::cycle::find_cycle;

/// Numbers the keys of a dependency map and rewrites it as index lists.
fn index_adjacency(adj: &HashMap<TypeId, Vec<TypeId>>) -> Vec<Vec<usize>> {
    let keys: Vec<TypeId> = adj.keys().copied().collect();
    keys.iter()
        .map(|k| {
            adj[k]
                .iter()
                .map(|d| keys.iter().position(|x| x == d).unwrap())
                .collect()
        })
        .collect()
}

fn is_cycle(adj: &[Vec<usize>], path: &[usize]) -> bool {
    path.len() >= 2
        && path[0] == path[path.len() - 1]
        && path.windows(2).all(|w| adj[w[0]].contains(&w[1]))
}

#[test]
fn can_find_simple_cycle() {
    let a = TypeId::of::<u16>();
    let b = TypeId::of::<u32>();
    let c = TypeId::of::<u64>();
    let mut adj = HashMap::new();
    adj.insert(a, vec![b]);
    adj.insert(b, vec![c]);
    adj.insert(c, vec![a]);
    let result = find_cycle(&index_adjacency(&adj));
    assert!(result.is_some());
}

#[test]
fn can_not_find_a_not_cycle() {
    let a = TypeId::of::<u16>();
    let b = TypeId::of::<u32>();
    let c = TypeId::of::<u64>();
    let mut adj = HashMap::new();
    adj.insert(a, vec![c]);
    adj.insert(b, vec![c]);
    adj.insert(c, vec![]);
    let result = find_cycle(&index_adjacency(&adj));
    assert!(result.is_none());
}

#[test]
fn can_find_cycle() {
    let node_a = TypeId::of::<u16>();
    let node_b = TypeId::of::<u32>();
    let node_c = TypeId::of::<u64>();
    let node_d = TypeId::of::<i64>();
    let node_e = TypeId::of::<i64>();
    let node_f = TypeId::of::<i64>();
    let mut adj = HashMap::new();
    adj.insert(node_a, vec![node_b, node_c, node_f]);
    adj.insert(node_b, vec![node_d]);
    adj.insert(node_c, vec![node_e]);
    adj.insert(node_d, vec![node_e]);
    adj.insert(node_e, vec![node_b]);
    let result = find_cycle(&index_adjacency(&adj));
    assert!(result.is_some());
}

#[test]
fn cycle_witness_follows_edges() {
    let adj = vec![vec![1], vec![2], vec![3], vec![1]];
    let path = find_cycle(&adj).unwrap();
    assert!(is_cycle(&adj, &path));
    assert!(!path.contains(&0));
}

#[test]
fn self_dependency_is_a_cycle() {
    let adj = vec![vec![0]];
    assert_eq!(find_cycle(&adj), Some(vec![0, 0]));
}

#[test]
fn diamond_has_no_cycle() {
    let adj = vec![vec![], vec![0], vec![0], vec![1, 2]];
    assert_eq!(find_cycle(&adj), None);
}

#[test]
fn empty_adjacency_has_no_cycle() {
    let adj: Vec<Vec<usize>> = vec![];
    assert_eq!(find_cycle(&adj), None);
}
