use std::collections::VecDeque;
use std::time::Duration;

use ordr::graph::Graph;
use ordr::job::{Job, Role};
use ordr::node::NodeInfo;
use ordr::output::Output;
use ordr::producer::{outcome, Error};
use ordr::outputs::Outputs;
use ordr::scheduler::{Dispatch, Outcome, Scheduler, Step};

const A: u64 = 1;
const B: u64 = 2;
const C: u64 = 3;
const D: u64 = 4;
const E: u64 = 5;

fn node(id: u64, name: &str, deps: &[u64]) -> NodeInfo {
    NodeInfo::new(id, name.to_string(), deps.to_vec())
}

fn graph(nodes: Vec<NodeInfo>) -> Graph {
    nodes
        .into_iter()
        .fold(Graph::builder(), |b, n| b.with_node(n))
        .build()
        .unwrap()
}

struct Run {
    outputs: Outputs<i64>,
    output: Output,
    events: Vec<String>,
    calls: usize,
}

/// Runs a job to its end, one task at a time in start order, as a runtime would.
/// `produce` gets the node name, the dependency payloads and the retry count;
/// `cancel_after` cancels once that many tasks have reported.
fn drive(
    g: &Graph,
    job: Job<i64>,
    produce: impl Fn(&str, &[i64], u32) -> Outcome<i64>,
    cancel_after: Option<usize>,
) -> Run {
    let mut s = Scheduler::new(g, job).unwrap();
    let mut queue: VecDeque<(usize, u32)> = VecDeque::new();
    let mut events = Vec::new();
    let mut calls = 0;
    let mut reported = 0;
    let elapsed = Duration::from_millis(0);
    loop {
        match s.dispatch(g, elapsed) {
            Dispatch::Start(started) => {
                for i in started {
                    events.push(format!("start {}", g.node_name(i)));
                    queue.push_back((i, 0));
                }
            }
            Dispatch::Finished(output) => {
                events.push("job done".to_string());
                return Run { outputs: s.into_outputs(g), output, events, calls };
            }
        }
        if cancel_after == Some(reported) {
            let output = s.cancel(g, elapsed).unwrap();
            events.push("job cancelled".to_string());
            return Run { outputs: s.into_outputs(g), output, events, calls };
        }
        let (i, retry) = queue.pop_front().unwrap();
        let payloads: Vec<i64> = s.payloads(g, i).unwrap().into_iter().copied().collect();
        calls += 1;
        let outcome = produce(g.node_name(i), &payloads, retry);
        reported += 1;
        match s.complete(g, i, outcome, elapsed) {
            Step::Continue => {
                if !s.is_running(g, i) {
                    events.push(format!("done {}", g.node_name(i)));
                }
            }
            Step::Retry { index, retry, .. } => queue.push_back((index, retry)),
            Step::Finished(output) => {
                events.push(format!("failed {}", g.node_name(i)));
                return Run { outputs: s.into_outputs(g), output, events, calls };
            }
        }
    }
}

fn diamond() -> Graph {
    graph(vec![
        node(A, "A", &[]),
        node(B, "B", &[A]),
        node(C, "C", &[A]),
        node(D, "D", &[B, C]),
    ])
}

fn diamond_producer(name: &str, deps: &[i64], _retry: u32) -> Outcome<i64> {
    match name {
        "A" => Outcome::Produced(1),
        "B" => Outcome::Produced(deps[0] + 2),
        "C" => Outcome::Produced(deps[0] + 3),
        _ => Outcome::Produced(deps[0] + deps[1] + 4),
    }
}

fn position(events: &[String], e: &str) -> usize {
    events.iter().position(|x| x == e).unwrap()
}

#[test]
fn diamond_runs_to_done() {
    let g = diamond();
    let run = drive(&g, Job::new().with_target(D), diamond_producer, None);
    assert!(run.output.is_done());
    assert_eq!(run.outputs.get(A), Some(&1));
    assert_eq!(run.outputs.get(B), Some(&3));
    assert_eq!(run.outputs.get(C), Some(&4));
    assert_eq!(run.outputs.get(D), Some(&11));
}

#[test]
fn dependencies_finish_before_dependents_start() {
    let g = diamond();
    let run = drive(&g, Job::new().with_target(D), diamond_producer, None);
    for (u, v) in [("A", "B"), ("A", "C"), ("B", "D"), ("C", "D")] {
        assert!(position(&run.events, &format!("done {u}")) < position(&run.events, &format!("start {v}")));
    }
}

#[test]
fn independent_ready_nodes_start_together() {
    let g = diamond();
    let mut s = Scheduler::new(&g, Job::<i64>::new().with_target(D)).unwrap();
    let t = Duration::from_millis(0);
    assert!(matches!(s.dispatch(&g, t), Dispatch::Start(ref v) if v == &vec![0]));
    assert!(matches!(s.complete(&g, 0, Outcome::Produced(1), t), Step::Continue));
    // B and C are both ready and are handed out in the same step.
    assert!(matches!(s.dispatch(&g, t), Dispatch::Start(ref v) if v == &vec![1, 2]));
    assert!(s.is_running(&g, 1) && s.is_running(&g, 2));
}

#[test]
fn node_failed() {
    let g = graph(vec![node(A, "A", &[]), node(B, "B", &[A]), node(C, "C", &[B])]);
    let run = drive(
        &g,
        Job::new().with_target(C),
        |name, _, _| match name {
            "A" => Outcome::Produced(1),
            "B" => Outcome::Failed("B failed".to_string()),
            _ => unreachable!(),
        },
        None,
    );
    match &run.output {
        Output::NodeFailed { name, error, .. } => {
            assert_eq!(name, "B");
            assert_eq!(error, "B failed");
        }
        other => panic!("expected a failed node, got {other:?}"),
    }
    assert_eq!(run.outputs.ids(), vec![A]);
    assert_eq!(run.outputs.get(A), Some(&1));
    assert!(!run.events.contains(&"start C".to_string()));
}

#[test]
fn nothing_starts_after_the_run_ends() {
    let g = diamond();
    let mut s = Scheduler::new(&g, Job::<i64>::new().with_target(D)).unwrap();
    let t = Duration::from_millis(3);
    s.dispatch(&g, t);
    let step = s.complete(&g, 0, Outcome::Failed("boom".to_string()), t);
    assert!(matches!(step, Step::Finished(Output::NodeFailed { .. })));
    assert!(s.finished());
    assert!(matches!(s.dispatch(&g, t), Dispatch::Start(ref v) if v.is_empty()));
    assert!(matches!(s.complete(&g, 0, Outcome::Produced(1), t), Step::Continue));
    assert!(s.cancel(&g, t).is_none());
    assert_eq!(s.into_outputs(&g).ids(), Vec::<u64>::new());
}

#[test]
fn node_panic_ends_the_run() {
    let g = diamond();
    let mut s = Scheduler::new(&g, Job::<i64>::new().with_target(D)).unwrap();
    let t = Duration::from_millis(5);
    s.dispatch(&g, t);
    let out = s.panicked(&g, 0, "boom!".to_string(), t).unwrap();
    assert!(out.is_node_panic());
    assert!(matches!(out, Output::NodePanic { ref name, ref error, .. } if name == "A" && error == "boom!"));
    assert_eq!(out.duration(), t);
    assert!(s.panicked(&g, 0, "again".to_string(), t).is_none());
}

#[test]
fn resume_cancelled_job() {
    // A(ctx) = ctx + 1, B(ctx, a) fails for ctx 0, else ctx + a + 1, C(ctx, b) = ctx + b + 1.
    let g = graph(vec![node(A, "A", &[]), node(B, "B", &[A]), node(C, "C", &[B])]);
    let producer = |ctx: i64| {
        move |name: &str, deps: &[i64], _: u32| match name {
            "A" => Outcome::Produced(ctx + 1),
            "B" if ctx == 0 => Outcome::Failed("B".to_string()),
            "B" => Outcome::Produced(ctx + deps[0] + 1),
            _ => Outcome::Produced(ctx + deps[0] + 1),
        }
    };
    let run = drive(&g, Job::new().with_target(C), producer(0), None);
    assert!(run.output.is_node_failed());
    assert_eq!(run.outputs.get(C), None);
    assert_eq!(run.outputs.get(A), Some(&1));
    assert_eq!(run.outputs.get(B), None);

    let job = Job::new().with_outputs(run.outputs).with_target(C);
    let run = drive(&g, job, producer(10), None);
    assert!(run.output.is_done());
    assert_eq!(run.outputs.get(A), Some(&1));
    assert_eq!(run.outputs.get(B), Some(&12));
    assert_eq!(run.outputs.get(C), Some(&23));
}

#[test]
fn resume_after_failure_keeps_earlier_outputs() {
    let g = graph(vec![node(A, "A", &[]), node(B, "B", &[A])]);
    let producer = |init: i64, fail_b: bool| {
        move |name: &str, deps: &[i64], _: u32| match name {
            "A" => Outcome::Produced(init + 1),
            _ if fail_b => Outcome::Failed("fatal".to_string()),
            _ => Outcome::Produced(deps[0] + 2),
        }
    };
    let first = drive(&g, Job::new().with_target(B), producer(1, true), None);
    assert!(first.output.is_node_failed());
    assert_eq!(first.outputs.ids(), vec![A]);
    assert_eq!(first.outputs.get(A), Some(&2));

    let second = drive(&g, Job::new().with_target(B).with_outputs(first.outputs), producer(10, false), None);
    assert!(second.output.is_done());
    assert_eq!(second.outputs.get(A), Some(&2));
    assert_eq!(second.outputs.get(B), Some(&4));
    assert_eq!(second.calls, 1);
}

#[test]
fn retrying() {
    let g = graph(vec![node(A, "A", &[])]);
    let run = drive(
        &g,
        Job::new().with_target(A),
        |_, _, retry| {
            if retry < 3 {
                Outcome::RetryAfter(Duration::from_millis(10))
            } else {
                Outcome::Produced(retry as i64)
            }
        },
        None,
    );
    assert!(run.output.is_done());
    assert_eq!(run.outputs.get(A), Some(&3));
    assert_eq!(run.calls, 4);
}

#[test]
fn retry_step_carries_count_and_delay() {
    let g = graph(vec![node(A, "A", &[])]);
    let mut s = Scheduler::new(&g, Job::<i64>::new().with_target(A)).unwrap();
    let t = Duration::from_millis(0);
    s.dispatch(&g, t);
    let step = s.complete(&g, 0, Outcome::RetryAfter(Duration::from_millis(10)), t);
    assert!(matches!(step, Step::Retry { index: 0, retry: 1, delay } if delay == Duration::from_millis(10)));
    assert_eq!(s.retry_count(&g, 0), 1);
    assert!(s.is_running(&g, 0));
}

#[test]
fn cancelled() {
    let g = graph(vec![node(A, "A", &[]), node(B, "B", &[A]), node(C, "C", &[B]), node(D, "D", &[C])]);
    let run = drive(
        &g,
        Job::new().with_target(D),
        |name, _, _| match name {
            "A" | "B" => Outcome::Produced(1),
            _ => Outcome::Produced(2),
        },
        Some(2),
    );
    assert!(run.output.is_stopped());
    assert_eq!(run.outputs.get(A), Some(&1));
    assert_eq!(run.outputs.get(B), Some(&1));
    assert_eq!(run.outputs.get(C), None);
    assert_eq!(run.outputs.get(D), None);
}

#[test]
fn cancel_mid_flight_keeps_only_recorded_outputs() {
    let g = graph(vec![node(A, "A", &[]), node(B, "B", &[A])]);
    let mut s = Scheduler::new(&g, Job::<i64>::new().with_target(B)).unwrap();
    let t = Duration::from_millis(5);
    s.dispatch(&g, t);
    s.complete(&g, 0, Outcome::Produced(1), t);
    s.dispatch(&g, t);
    let out = s.cancel(&g, t).unwrap();
    assert!(matches!(out, Output::Stopped { duration } if duration == t));
    // A late report of B is not recorded.
    assert!(matches!(s.complete(&g, 1, Outcome::Produced(3), t), Step::Continue));
    let outputs = s.into_outputs(&g);
    assert_eq!(outputs.get(A), Some(&1));
    assert_eq!(outputs.get(B), None);
}

#[test]
fn add_input_to_job() {
    let g = graph(vec![node(A, "A", &[]), node(B, "B", &[A])]);
    let run = drive(
        &g,
        Job::new().with_target(B).with_input(A, 5),
        |name, deps, _| match name {
            "A" => Outcome::Failed("A cannot be produced".to_string()),
            _ => Outcome::Produced(deps[0] * 2),
        },
        None,
    );
    assert!(run.output.is_done());
    assert_eq!(run.outputs.get(A), Some(&5));
    assert_eq!(run.outputs.get(B), Some(&10));
    assert!(!run.events.contains(&"start A".to_string()));
}

#[test]
fn empty_targets_with_inputs_is_done_with_inputs() {
    let g = diamond();
    let run = drive(&g, Job::new().with_input(A, 9).with_input(C, 8), diamond_producer, None);
    assert!(run.output.is_done());
    assert_eq!(run.calls, 0);
    let mut ids = run.outputs.ids();
    ids.sort();
    assert_eq!(ids, vec![A, C]);
    assert_eq!(run.outputs.get(A), Some(&9));
    assert_eq!(run.outputs.get(C), Some(&8));
}

#[test]
fn only_needed_producers_run() {
    // A <- B <- D and A <- C; targeting D with B supplied runs D alone.
    let g = graph(vec![node(A, "A", &[]), node(B, "B", &[A]), node(C, "C", &[A]), node(D, "D", &[B])]);
    let run = drive(
        &g,
        Job::new().with_target(D).with_input(B, 4),
        |name, deps, _| match name {
            "D" => Outcome::Produced(deps[0] + 1),
            other => panic!("{other} should not run"),
        },
        None,
    );
    assert!(run.output.is_done());
    assert_eq!(run.calls, 1);
    assert_eq!(run.outputs.get(D), Some(&5));
    assert_eq!(run.outputs.get(A), None);
}

#[test]
fn chatty_parallel() {
    // A -> B -> D, A -> C, (C, D) -> E.
    let g = graph(vec![
        node(A, "A", &[]),
        node(B, "B", &[A]),
        node(C, "C", &[A]),
        node(D, "D", &[B]),
        node(E, "E", &[C, D]),
    ]);
    let run = drive(&g, Job::new().with_target(E), |_, deps, _| Outcome::Produced(deps.iter().sum::<i64>() + 1), None);
    assert!(run.output.is_done());
    let done_a = position(&run.events, "done A");
    assert!(done_a < position(&run.events, "start B"));
    assert!(done_a < position(&run.events, "start C"));
    let start_e = position(&run.events, "start E");
    assert!(position(&run.events, "done C") < start_e);
    assert!(position(&run.events, "done D") < start_e);
    assert_eq!(run.outputs.get(E), Some(&6));
}

#[test]
fn unknown_target_is_rejected_at_start() {
    let g = diamond();
    let r = Scheduler::new(&g, Job::<i64>::new().with_target(E));
    assert!(matches!(r.err(), Some(ordr::error::Error::NodeNotFound(E))));
}

#[test]
fn outputs_get_take_insert() {
    let mut o: Outputs<String> = Outputs::new();
    assert_eq!(o.get(A), None);
    o.insert(A, "a".to_string());
    o.insert(B, "b".to_string());
    o.insert(A, "a2".to_string());
    assert_eq!(o.get(A), Some(&"a2".to_string()));
    assert!(o.contains(B));
    assert_eq!(o.take(B), Some("b".to_string()));
    assert_eq!(o.take(B), None);
    assert!(!o.contains(B));
    assert_eq!(o.ids(), vec![A]);
}

#[test]
fn output_accessors() {
    let d = Duration::from_millis(7);
    let done = Output::Done { duration: d };
    assert!(done.is_done() && !done.is_stopped() && !done.is_node_failed() && !done.is_node_panic());
    assert_eq!(done.duration(), d);
    let failed = Output::NodeFailed { duration: d, name: "B".to_string(), error: "x".to_string() };
    assert!(failed.is_node_failed() && !failed.is_done());
    let stopped = Output::Stopped { duration: Duration::from_secs(2) };
    assert!(stopped.is_stopped());
    assert_eq!(stopped.duration(), Duration::from_secs(2));
}

/// Starts what is ready, lets the tasks of `ok` succeed with `1`, then reports
/// a fault for the first started node named `faulty`.
fn run_until_fault(g: &Graph, target: u64, faulty: &str) -> Output {
    let mut s = Scheduler::new(g, Job::<i64>::new().with_target(target)).unwrap();
    let t = Duration::from_millis(1);
    loop {
        let started = match s.dispatch(g, t) {
            Dispatch::Start(v) => v,
            Dispatch::Finished(o) => return o,
        };
        for i in started {
            if g.node_name(i) == faulty {
                return s.panicked(g, i, "boom!".to_string(), t).unwrap();
            }
            assert!(matches!(s.complete(g, i, Outcome::Produced(1), t), Step::Continue));
        }
    }
}

#[test]
fn basic() {
    let g = graph(vec![node(A, "A", &[]), node(B, "B", &[A])]);
    let run = drive(&g, Job::new().with_target(B), |_, _, _| Outcome::Produced(0), None);
    assert!(run.output.is_done());
    assert_eq!(run.outputs.get(A), Some(&0));
    assert_eq!(run.outputs.get(B), Some(&0));
}

#[test]
fn readme_example() {
    let g = graph(vec![node(A, "A", &[]), node(B, "B", &[A])]);
    let run = drive(
        &g,
        Job::new().with_target(B),
        |name, deps, _| match name {
            "A" => Outcome::Produced(123),
            _ => Outcome::Produced(deps[0] + 2),
        },
        None,
    );
    assert!(run.output.is_done());
    assert_eq!(run.outputs.ids().len(), 2);
    assert_eq!(run.outputs.get(B), Some(&125));
}

#[test]
fn output_with_generic() {
    let g = graph(vec![node(A, "A", &[]), node(B, "B", &[A])]);
    let run = drive(
        &g,
        Job::new().with_target(B),
        |name, _, _| match name {
            "A" => Outcome::Produced(22),
            _ => Outcome::Produced(0),
        },
        None,
    );
    assert!(run.output.is_done());
    assert_eq!(run.outputs.get(A), Some(&22));
}

#[test]
fn can_stop() {
    let g = graph(vec![node(A, "A", &[]), node(B, "B", &[A])]);
    let run = drive(&g, Job::new().with_target(B), |_, _, _| Outcome::Produced(1), Some(1));
    assert!(run.output.is_stopped());
    assert!(run.outputs.get(A).is_some());
    assert!(run.outputs.get(B).is_none());
}

#[test]
fn concurrent() {
    // A and B are independent; C needs both.
    let g = graph(vec![node(A, "A", &[]), node(B, "B", &[]), node(C, "C", &[A, B])]);
    let run = drive(&g, Job::new().with_target(C), |_, _, _| Outcome::Produced(1), None);
    assert!(run.output.is_done());
    assert_eq!(&run.events[..4], &["start A", "start B", "done A", "done B"]);
}

#[test]
fn runs_nodes_concurrently() {
    let g = graph(vec![node(A, "A", &[]), node(B, "B", &[A]), node(C, "C", &[A])]);
    let run = drive(&g, Job::new().with_target(B).with_target(C), |_, _, _| Outcome::Produced(1), None);
    assert!(run.output.is_done());
    let tail: Vec<&str> = run.events[2..6].iter().map(|e| e.split(' ').next().unwrap()).collect();
    assert_eq!(tail, vec!["start", "start", "done", "done"]);
}

#[test]
fn base_node_panic() {
    let g = graph(vec![node(A, "A", &[]), node(B, "Bomb", &[A])]);
    match run_until_fault(&g, B, "Bomb") {
        Output::NodePanic { name, .. } => assert_eq!(name, "Bomb"),
        output => panic!("Expected node panic, got {output:?}"),
    }
}

#[test]
fn basic_node_panic() {
    let g = graph(vec![node(A, "A", &[]), node(B, "B", &[A]), node(C, "C", &[B]), node(D, "D", &[C])]);
    let output = run_until_fault(&g, D, "C");
    assert!(matches!(output, Output::NodePanic { .. }));
}

#[test]
fn producer_errors_map_to_outcomes() {
    let d = Duration::from_millis(10);
    assert!(matches!(outcome::<i64>(Ok(4)), Outcome::Produced(4)));
    assert!(matches!(outcome::<i64>(Err(Error::fatal("no".to_string()))), Outcome::Failed(ref m) if m == "no"));
    assert!(matches!(outcome::<i64>(Err(Error::with_retry("later".to_string(), d))), Outcome::RetryAfter(x) if x == d));
}

#[test]
fn roles_classify_nodes() {
    let g = graph(vec![node(A, "A", &[]), node(B, "B", &[A]), node(C, "C", &[A]), node(D, "D", &[B])]);
    let job = Job::new().with_target(D).with_input(B, 1i64);
    assert_eq!(g.roles(&job), vec![Role::Inactive, Role::Given, Role::Inactive, Role::Target]);
    let job: Job<i64> = Job::new().with_target(D);
    assert_eq!(g.roles(&job), vec![Role::Active, Role::Active, Role::Inactive, Role::Target]);
    assert_eq!(g.find_name(&"C".to_string()), Some(2));
    assert_eq!(g.find_name(&"Z".to_string()), None);
}
