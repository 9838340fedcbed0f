use multissh::host::RemoteHost;
use multissh::outcome::{Response, RunError, RunResult};
use multissh::runner::{HostRunner, Phase, RunnerAction, RunnerEvent};

fn host() -> RemoteHost {
    RemoteHost {
        host: "example.com".to_string(),
        sudo: None,
        username: "alice".to_string(),
        port: 22,
    }
}

fn commands(count: usize) -> Vec<String> {
    (0..count).map(|i| format!("cmd{}", i)).collect()
}

fn done(text: &str, millis: u64) -> RunnerEvent {
    RunnerEvent::CommandDone {
        out: text.to_string(),
        err: String::new(),
        code: Some(0),
        duration: millis,
    }
}

fn result_at(index: usize, text: &str, millis: u64) -> RunResult<Response> {
    Ok(Response {
        index,
        out: text.to_string(),
        err: String::new(),
        code: Some(0),
        duration: millis,
    })
}

#[test]
fn runner_starts_by_connecting() {
    let runner = HostRunner::new(host(), commands(2));
    assert_eq!(runner.phase(), Phase::Connecting);
    assert_eq!(runner.pending(), RunnerAction::Connect);
    assert_eq!(runner.remote_host(), &host());
}

#[test]
fn runner_runs_the_commands_in_order_and_closes() {
    let mut runner = HostRunner::new(host(), commands(3)).step(RunnerEvent::Connected);
    for i in 0..3 {
        assert_eq!(
            runner.pending(),
            RunnerAction::Execute { index: i, command: format!("cmd{}", i) }
        );
        runner = runner.step(done(&format!("out{}", i), 10 + i as u64));
    }
    assert_eq!(runner.pending(), RunnerAction::Close);
    runner = runner.step(RunnerEvent::Closed);
    assert_eq!(runner.pending(), RunnerAction::Finish);
    assert_eq!(runner.phase(), Phase::Finished);
    let (remote_host, handed) = runner.finish();
    assert_eq!(remote_host, host());
    assert_eq!(
        handed,
        Ok(vec![result_at(0, "out0", 10), result_at(1, "out1", 11), result_at(2, "out2", 12)])
    );
}

#[test]
fn runner_connection_failure_is_the_only_outcome() {
    let runner = HostRunner::new(host(), commands(3))
        .step(RunnerEvent::ConnectFailed("timed out".to_string()));
    assert_eq!(runner.pending(), RunnerAction::Finish);
    let (_, handed) = runner.finish();
    assert_eq!(handed, Err(RunError::SshConnectionError("timed out".to_string())));
}

#[test]
fn runner_stops_at_the_first_failed_command() {
    for total in 1..6usize {
        for failing in 0..total {
            let mut runner = HostRunner::new(host(), commands(total)).step(RunnerEvent::Connected);
            for i in 0..failing {
                runner = runner.step(done(&format!("out{}", i), 1));
            }
            runner = runner.step(RunnerEvent::CommandFailed("broken pipe".to_string()));
            assert_eq!(runner.pending(), RunnerAction::Close);
            runner = runner.step(RunnerEvent::Closed);
            let (_, handed) = runner.finish();
            let entries = handed.unwrap();
            assert_eq!(entries.len(), failing + 1);
            for (i, entry) in entries.iter().enumerate().take(failing) {
                assert_eq!(entry, &result_at(i, &format!("out{}", i), 1));
            }
            assert_eq!(
                entries[failing],
                Err(RunError::SshRunError("broken pipe".to_string(), failing))
            );
        }
    }
}

#[test]
fn runner_close_failure_after_three_commands_gives_four_outcomes() {
    let mut runner = HostRunner::new(host(), commands(3)).step(RunnerEvent::Connected);
    for i in 0..3 {
        runner = runner.step(done(&format!("out{}", i), 5));
    }
    runner = runner.step(RunnerEvent::CloseFailed("reset".to_string()));
    let (_, handed) = runner.finish();
    assert_eq!(
        handed,
        Ok(vec![
            result_at(0, "out0", 5),
            result_at(1, "out1", 5),
            result_at(2, "out2", 5),
            Err(RunError::SshCloseError("reset".to_string())),
        ])
    );
}

#[test]
fn runner_close_failure_follows_a_failed_command() {
    let runner = HostRunner::new(host(), commands(3))
        .step(RunnerEvent::Connected)
        .step(done("out0", 5))
        .step(RunnerEvent::CommandFailed("no exit code".to_string()))
        .step(RunnerEvent::CloseFailed("reset".to_string()));
    let (_, handed) = runner.finish();
    assert_eq!(
        handed,
        Ok(vec![
            result_at(0, "out0", 5),
            Err(RunError::SshRunError("no exit code".to_string(), 1)),
            Err(RunError::SshCloseError("reset".to_string())),
        ])
    );
}

#[test]
fn runner_without_commands_connects_and_closes() {
    let runner = HostRunner::new(host(), Vec::new()).step(RunnerEvent::Connected);
    assert_eq!(runner.pending(), RunnerAction::Close);
    let (_, handed) = runner.step(RunnerEvent::Closed).finish();
    assert_eq!(handed, Ok(Vec::new()));
}

#[test]
fn runner_ignores_reports_that_answer_nothing() {
    let runner = HostRunner::new(host(), commands(1)).step(done("early", 1));
    assert_eq!(runner.pending(), RunnerAction::Connect);
    let runner = runner.step(RunnerEvent::Closed).step(RunnerEvent::Connected);
    let runner = runner.step(RunnerEvent::Connected).step(RunnerEvent::CloseFailed("x".to_string()));
    assert_eq!(runner.pending(), RunnerAction::Execute { index: 0, command: "cmd0".to_string() });
    let runner = runner.step(done("out", 2)).step(done("again", 3));
    assert_eq!(runner.pending(), RunnerAction::Close);
    let runner = runner.step(RunnerEvent::Closed).step(RunnerEvent::CloseFailed("late".to_string()));
    let (_, handed) = runner.finish();
    assert_eq!(handed, Ok(vec![result_at(0, "out", 2)]));
}

#[test]
fn runner_never_closes_a_session_that_was_not_opened() {
    let mut runner = HostRunner::new(host(), commands(2))
        .step(RunnerEvent::ConnectFailed("refused".to_string()));
    for _ in 0..3 {
        assert_eq!(runner.pending(), RunnerAction::Finish);
        runner = runner.step(RunnerEvent::Closed);
    }
}

#[test]
fn runner_events_from_results() {
    assert_eq!(RunnerEvent::connection(Ok(())), RunnerEvent::Connected);
    assert_eq!(
        RunnerEvent::connection(Err("no route".to_string())),
        RunnerEvent::ConnectFailed("no route".to_string())
    );
    assert_eq!(
        RunnerEvent::command(Ok(("o".to_string(), "e".to_string(), Some(3), 9))),
        RunnerEvent::CommandDone { out: "o".to_string(), err: "e".to_string(), code: Some(3), duration: 9 }
    );
    assert_eq!(
        RunnerEvent::command(Err("No exit code".to_string())),
        RunnerEvent::CommandFailed("No exit code".to_string())
    );
    assert_eq!(RunnerEvent::closing(Ok(())), RunnerEvent::Closed);
    assert_eq!(
        RunnerEvent::closing(Err("gone".to_string())),
        RunnerEvent::CloseFailed("gone".to_string())
    );
}
