use multissh::host::RemoteHost;
use multissh::outcome::{Response, Responses, RunError, RunResult};
use multissh::report::{
    any_host_error, compact_all, duration_print, entry_message, mark_print, mark_text, report,
    success_print, text_line, text_lines, CompactResponse, Output, Report, HOST_COLUMN,
};

fn host(name: &str) -> RemoteHost {
    RemoteHost { host: name.to_string(), sudo: None, username: "u".to_string(), port: 22 }
}

fn ok(index: usize, text: &str, millis: u64) -> RunResult<Response> {
    Ok(Response { index, out: text.to_string(), err: "e".to_string(), code: Some(0), duration: millis })
}

fn records() -> Vec<Responses> {
    vec![
        Responses {
            remote_host: host("alpha"),
            responses: vec![ok(0, "first", 12), Err(RunError::SshRunError("boom".to_string(), 1))],
        },
        Responses { remote_host: host("beta"), responses: vec![] },
        Responses {
            remote_host: host("a-very-long-host-name"),
            responses: vec![Err(RunError::SshConnectionError("refused".to_string()))],
        },
    ]
}

fn compacts() -> Vec<CompactResponse> {
    vec![
        CompactResponse::new(host("alpha"), "first".to_string(), true, 12),
        CompactResponse::new(host("alpha"), "SSH Run error: boom".to_string(), false, 0),
        CompactResponse::new(
            host("a-very-long-host-name"),
            "SSH Connection error: refused".to_string(),
            false,
            0,
        ),
    ]
}

#[test]
fn error_texts() {
    assert_eq!(RunError::GeneralError("x".to_string()).to_string(), "An error occurred: x");
    assert_eq!(
        RunError::SshConnectionError("x".to_string()).to_string(),
        "SSH Connection error: x"
    );
    assert_eq!(RunError::SshRunError("x".to_string(), 3).to_string(), "SSH Run error: x");
    assert_eq!(RunError::SshCloseError("x".to_string()).to_string(), "SSH error occurred: x");
}

#[test]
fn errors_and_results_clone_equal() {
    let error = RunError::SshRunError("x".to_string(), 3);
    assert_eq!(error.clone(), error);
    let response =
        Response { index: 1, out: "o".to_string(), err: "e".to_string(), code: None, duration: 4 };
    assert_eq!(response.clone(), response);
}

#[test]
fn compact_response_new_keeps_its_arguments() {
    let compact = CompactResponse::new(host("h"), "text".to_string(), true, 99);
    assert_eq!(compact.remote_host, host("h"));
    assert_eq!(compact.out, "text");
    assert!(compact.success);
    assert_eq!(compact.duration, 99);
}

#[test]
fn compact_records_of_one_host() {
    let all = records();
    let list: Vec<CompactResponse> = Vec::from(&all[0]);
    assert_eq!(list, compacts()[..2]);
    assert_eq!(all[0].compact(), compacts()[..2]);
    assert_eq!(all[1].compact(), Vec::new());
}

#[test]
fn compact_records_of_all_hosts() {
    assert_eq!(compact_all(&records()), compacts());
    assert_eq!(compact_all(&Vec::new()), Vec::new());
}

#[test]
fn entry_messages() {
    assert_eq!(entry_message(&ok(0, "out", 1)), "out");
    assert_eq!(
        entry_message(&Err(RunError::SshCloseError("bye".to_string()))),
        "SSH error occurred: bye"
    );
}

#[test]
fn text_line_sets_the_host_to_the_right() {
    assert_eq!(HOST_COLUMN, 15);
    assert_eq!(text_line("alpha", &ok(0, "first", 1)), format!("{:>15}: {}", "alpha", "first"));
    assert_eq!(text_line("alpha", &ok(0, "first", 1)), "          alpha: first");
    assert_eq!(
        text_line("a-very-long-host-name", &ok(0, "x", 1)),
        "a-very-long-host-name: x"
    );
}

#[test]
fn text_lines_of_all_hosts() {
    assert_eq!(
        text_lines(&records()),
        vec![
            "          alpha: first",
            "          alpha: SSH Run error: boom",
            "a-very-long-host-name: SSH Connection error: refused",
        ]
    );
}

#[test]
fn report_by_output() {
    assert_eq!(report(Output::Json, &records()), Report::Records(compacts()));
    assert_eq!(report(Output::Table, &records()), Report::Records(compacts()));
    assert_eq!(report(Output::Text, &records()), Report::Lines(text_lines(&records())));
}

#[test]
fn any_host_error_finds_errors() {
    assert!(any_host_error(&records()));
    assert!(!any_host_error(&Vec::new()));
    let fine = vec![
        Responses { remote_host: host("a"), responses: vec![ok(0, "x", 1)] },
        Responses { remote_host: host("b"), responses: vec![] },
    ];
    assert!(!any_host_error(&fine));
}

#[test]
fn duration_print_appends_the_unit() {
    assert_eq!(duration_print(&0), "0ms");
    assert_eq!(duration_print(&1234), "1234ms");
    assert_eq!(duration_print(&u64::MAX), "18446744073709551615ms");
}

#[test]
fn success_print_shows_the_emoji() {
    assert_eq!(success_print(&true), "\u{2705}");
    assert_eq!(success_print(&false), "\u{274c}");
    assert_eq!(success_print(&true), emojis::get("\u{2705}").unwrap().to_string());
}

#[test]
fn mark_print_gives_the_fully_qualified_emoji_or_the_word() {
    assert_eq!(mark_print("\u{1f43f}", "chipmunk"), "\u{1f43f}\u{fe0f}");
    assert_eq!(mark_print("no emoji", "word"), "word");
    assert_eq!(mark_text(None, "word"), "word");
    assert_eq!(mark_text(Some("\u{2705}".to_string()), "word"), "\u{2705}");
}
