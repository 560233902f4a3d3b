use ordr::error::Error;
use ordr::graph::{Builder, Graph};
use ordr::job::Job;
use ordr::node::NodeInfo;

const A: u64 = 1;
const B: u64 = 2;
const C: u64 = 3;
const D: u64 = 4;

fn node(id: u64, name: &str, deps: &[u64]) -> NodeInfo {
    NodeInfo::new(id, name.to_string(), deps.to_vec())
}

fn builder(nodes: Vec<NodeInfo>) -> Builder {
    nodes.into_iter().fold(Graph::builder(), |b, n| b.with_node(n))
}

#[test]
fn detect_cycle() {
    let r = builder(vec![node(A, "A", &[B]), node(B, "B", &[C]), node(C, "C", &[A])]).build();
    assert!(matches!(r, Err(Error::Cycle(_))));
}

#[test]
fn detect_empty_graph() {
    let r = Graph::builder().build();
    assert!(matches!(r, Err(Error::NoNodes)));
}

#[test]
fn detect_missing_dependency() {
    let r = builder(vec![node(B, "B", &[A]), node(C, "C", &[B])]).build();
    assert!(matches!(r, Err(Error::DependencyNotFound(ref name, _)) if name == "B"));
}

#[test]
fn target_not_found() {
    let graph = builder(vec![node(A, "A", &[]), node(B, "B", &[A]), node(C, "C", &[B])])
        .build()
        .unwrap();
    let job: Job<()> = Job::new().with_target(D);
    let r = graph.validate_job(&job);
    assert!(matches!(r, Err(Error::NodeNotFound(_))));
}

#[test]
fn missing_dependency_reports_name_and_id() {
    let r = builder(vec![node(B, "B", &[A]), node(C, "C", &[B])]).build();
    assert_eq!(r.err(), Some(Error::DependencyNotFound("B".to_string(), A)));
}

#[test]
fn self_dependency_fails_with_cycle() {
    let r = builder(vec![node(A, "A", &[A])]).build();
    assert_eq!(r.err(), Some(Error::Cycle(vec!["A".to_string(), "A".to_string()])));
}

#[test]
fn cycle_names_follow_dependencies() {
    let r = builder(vec![node(A, "A", &[B]), node(B, "B", &[C]), node(C, "C", &[A])]).build();
    let names = match r {
        Err(Error::Cycle(names)) => names,
        other => panic!("expected a cycle, got {:?}", other.err()),
    };
    assert_eq!(names.len(), 4);
    assert_eq!(names[0], names[3]);
    let deps_of = |n: &str| match n {
        "A" => "B",
        "B" => "C",
        _ => "A",
    };
    for w in names.windows(2) {
        assert_eq!(deps_of(&w[0]), w[1]);
    }
}

#[test]
fn duplicate_name_is_rejected() {
    let r = builder(vec![node(A, "same", &[]), node(B, "same", &[])]).build();
    assert_eq!(r.err(), Some(Error::DuplicateName("same".to_string())));
}

#[test]
fn duplicate_identifier_keeps_first_descriptor() {
    let graph = builder(vec![node(B, "B", &[A]), node(A, "A", &[]), node(B, "other", &[])])
        .build()
        .unwrap();
    assert_eq!(graph.node_count(), 2);
    assert_eq!(graph.node_id(0), A);
    assert_eq!(graph.node_id(1), B);
    assert_eq!(graph.node_name(1), "B");
    assert_eq!(graph.deps_of(1), &vec![0]);
    assert_eq!(graph.find(B), Some(1));
    assert_eq!(graph.find(C), None);
}

#[test]
fn validate_job_accepts_known_nodes() {
    let graph = builder(vec![node(A, "A", &[]), node(B, "B", &[A])]).build().unwrap();
    let job = Job::new().with_target(B).with_input(A, 7i64);
    assert_eq!(graph.validate_job(&job), Ok(()));
}

#[test]
fn unknown_input_is_rejected() {
    let graph = builder(vec![node(A, "A", &[]), node(B, "B", &[A])]).build().unwrap();
    let job = Job::new().with_target(B).with_input(C, 7i64);
    assert_eq!(graph.validate_job(&job), Err(Error::NodeNotFound(C)));
}

#[test]
fn pending_is_the_minimal_sub_graph() {
    // A <- B <- D, A <- C; target D with B supplied: only D is needed.
    let graph = builder(vec![
        node(A, "A", &[]),
        node(B, "B", &[A]),
        node(C, "C", &[A]),
        node(D, "D", &[B]),
    ])
    .build()
    .unwrap();
    let job = Job::new().with_target(D).with_input(B, 1i64);
    assert_eq!(job.pending(&graph), vec![false, false, false, true]);
    let job: Job<i64> = Job::new().with_target(D);
    assert_eq!(job.pending(&graph), vec![true, true, false, true]);
    let job: Job<i64> = Job::new().with_target(D).with_target(C);
    assert_eq!(job.pending(&graph), vec![true, true, true, true]);
}

#[test]
fn supplied_target_is_not_pending() {
    let graph = builder(vec![node(A, "A", &[]), node(B, "B", &[A])]).build().unwrap();
    let job = Job::new().with_target(B).with_input(B, 3i64);
    assert_eq!(job.pending(&graph), vec![false, false]);
}

#[test]
fn repeated_target_is_one_target() {
    let job: Job<()> = Job::new().with_target(A).with_target(A).with_target(B);
    assert_eq!(job.targets(), &vec![A, B]);
}
