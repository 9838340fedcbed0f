use multissh::aggregate::{aggregate, host_outcome, order_outcomes, outcome_before, sort_by_host};
use multissh::host::RemoteHost;
use multissh::outcome::{clone_outcome, outcome_position, Response, Responses, RunError, RunResult};

fn host(name: &str) -> RemoteHost {
    RemoteHost { host: name.to_string(), sudo: None, username: "u".to_string(), port: 22 }
}

fn ok(index: usize, text: &str) -> RunResult<Response> {
    Ok(Response { index, out: text.to_string(), err: String::new(), code: Some(0), duration: 3 })
}

fn failed(index: usize) -> RunResult<Response> {
    Err(RunError::SshRunError("failed".to_string(), index))
}

fn close_error() -> RunResult<Response> {
    Err(RunError::SshCloseError("close".to_string()))
}

fn record(name: &str, responses: Vec<RunResult<Response>>) -> Responses {
    Responses { remote_host: host(name), responses }
}

fn copy(records: &[Responses]) -> Vec<Responses> {
    records
        .iter()
        .map(|r| Responses {
            remote_host: r.remote_host.clone(),
            responses: r.responses.iter().map(clone_outcome).collect(),
        })
        .collect()
}

fn names(records: &[Responses]) -> Vec<String> {
    records.iter().map(|r| r.remote_host.host.clone()).collect()
}

#[test]
fn positions_of_entries() {
    assert_eq!(outcome_position(&ok(4, "x")), Some(4));
    assert_eq!(outcome_position(&failed(7)), Some(7));
    assert_eq!(outcome_position(&close_error()), None);
    assert_eq!(outcome_position(&Err(RunError::SshConnectionError("c".to_string()))), None);
    assert_eq!(outcome_position(&Err(RunError::GeneralError("g".to_string()))), None);
}

#[test]
fn entries_compare_by_position() {
    assert!(outcome_before(&ok(0, "a"), &failed(1)));
    assert!(!outcome_before(&failed(1), &ok(0, "a")));
    assert!(!outcome_before(&ok(1, "a"), &ok(1, "b")));
    assert!(!outcome_before(&close_error(), &ok(1, "b")));
    assert!(!outcome_before(&ok(1, "b"), &close_error()));
}

#[test]
fn order_outcomes_sorts_by_position() {
    let ordered = order_outcomes(vec![ok(2, "c"), ok(0, "a"), failed(3), ok(1, "b")]);
    assert_eq!(ordered, vec![ok(0, "a"), ok(1, "b"), ok(2, "c"), failed(3)]);
}

#[test]
fn order_outcomes_leaves_a_run_as_it_is() {
    let run = vec![ok(0, "a"), ok(1, "b"), failed(2), close_error()];
    assert_eq!(order_outcomes(run.iter().map(clone_outcome).collect()), run);
    assert_eq!(order_outcomes(Vec::new()), Vec::new());
}

#[test]
fn order_outcomes_is_stable() {
    let ordered = order_outcomes(vec![ok(1, "first"), ok(0, "x"), ok(1, "second")]);
    assert_eq!(ordered, vec![ok(0, "x"), ok(1, "first"), ok(1, "second")]);
}

#[test]
fn order_outcomes_does_not_move_entries_past_one_without_position() {
    let ordered = order_outcomes(vec![ok(5, "a"), close_error(), ok(3, "b"), ok(1, "c")]);
    assert_eq!(ordered, vec![ok(5, "a"), close_error(), ok(1, "c"), ok(3, "b")]);
}

#[test]
fn host_outcome_of_a_run_and_of_a_refusal() {
    let kept = host_outcome(host("a"), Ok(vec![ok(1, "b"), ok(0, "a")]));
    assert_eq!(kept, record("a", vec![ok(0, "a"), ok(1, "b")]));
    let refused = host_outcome(host("a"), Err(RunError::SshConnectionError("no".to_string())));
    assert_eq!(
        refused,
        record("a", vec![Err(RunError::SshConnectionError("no".to_string()))])
    );
}

#[test]
fn sort_by_host_sorts_ascending() {
    let sorted = sort_by_host(vec![
        record("delta", vec![]),
        record("alpha", vec![]),
        record("charlie", vec![]),
        record("bravo", vec![]),
        record("Alpha", vec![]),
        record("alpha2", vec![]),
    ]);
    assert_eq!(names(&sorted), vec!["Alpha", "alpha", "alpha2", "bravo", "charlie", "delta"]);
}

#[test]
fn sort_by_host_agrees_with_std() {
    let given = vec![
        record("web-10", vec![ok(0, "1")]),
        record("web-2", vec![ok(0, "2")]),
        record("db", vec![ok(0, "3")]),
        record("web-2", vec![ok(0, "4")]),
        record("\u{e9}cole", vec![ok(0, "5")]),
        record("", vec![ok(0, "6")]),
        record("db", vec![ok(0, "7")]),
    ];
    let mut expected = copy(&given);
    expected.sort_by(|a, b| a.remote_host.host.cmp(&b.remote_host.host));
    assert_eq!(sort_by_host(given), expected);
}

#[test]
fn aggregate_orders_hosts_and_entries() {
    let aggregated = aggregate(vec![
        record("zeta", vec![ok(1, "z1"), ok(0, "z0")]),
        record("alpha", vec![ok(0, "a0"), failed(1), close_error()]),
        record("mid", vec![Err(RunError::SshConnectionError("no".to_string()))]),
    ]);
    assert_eq!(
        aggregated,
        vec![
            record("alpha", vec![ok(0, "a0"), failed(1), close_error()]),
            record("mid", vec![Err(RunError::SshConnectionError("no".to_string()))]),
            record("zeta", vec![ok(0, "z0"), ok(1, "z1")]),
        ]
    );
}

#[test]
fn aggregate_gives_strictly_rising_positions_for_runs() {
    let aggregated = aggregate(vec![
        record("b", vec![ok(0, "x"), ok(1, "y"), ok(2, "z"), close_error()]),
        record("a", vec![ok(0, "x"), failed(1)]),
    ]);
    assert_eq!(names(&aggregated), vec!["a", "b"]);
    for host_record in &aggregated {
        let positions: Vec<usize> =
            host_record.responses.iter().filter_map(outcome_position).collect();
        assert!(positions.windows(2).all(|pair| pair[0] < pair[1]));
    }
}

#[test]
fn aggregate_twice_is_aggregate_once() {
    let given = vec![
        record("c", vec![ok(2, "c"), ok(0, "a"), close_error(), ok(1, "b")]),
        record("a", vec![failed(0)]),
        record("b", vec![]),
        record("a", vec![ok(0, "second a")]),
    ];
    let once = aggregate(copy(&given));
    let again = aggregate(copy(&given));
    assert_eq!(once, again);
    let twice = aggregate(copy(&once));
    assert_eq!(twice, once);
}

#[test]
fn aggregate_does_not_depend_on_the_order_of_completion() {
    let one = vec![
        record("a", vec![ok(0, "1")]),
        record("b", vec![ok(0, "2")]),
        record("c", vec![ok(0, "3")]),
    ];
    let mut other = copy(&one);
    other.reverse();
    assert_eq!(aggregate(one), aggregate(other));
}

#[test]
fn aggregate_keeps_every_host() {
    let aggregated = aggregate(vec![record("b", vec![]), record("a", vec![]), record("b", vec![])]);
    assert_eq!(names(&aggregated), vec!["a", "b", "b"]);
    assert_eq!(aggregate(Vec::new()), Vec::new());
}
