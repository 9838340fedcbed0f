use multissh::host::{parse_host_login, parse_users, HostSpecError, RemoteHost, DEFAULT_PORT};

fn invoker() -> Option<String> {
    Some("env_user".to_string())
}

#[test]
fn test_parse_users_single_user() {
    let input = "user@";
    let expected = vec!["user".to_string()];
    let result = parse_users(input);
    assert_eq!(result, expected);
}

#[test]
fn test_parse_users_multiple_users() {
    let input = "user@sudo@";
    let expected = vec!["user".to_string(), "sudo".to_string()];
    let result = parse_users(input);
    assert_eq!(result, expected);
}

#[test]
fn test_parse_users_no_users() {
    let input = "";
    let expected: Vec<String> = Vec::new();
    let result = parse_users(input);
    assert_eq!(result, expected);
}

#[test]
fn test_parse_host_login_valid_single_user() {
    let input = "user@host";
    let expected = RemoteHost {
        username: "user".to_string(),
        sudo: None,
        host: "host".to_string(),
        port: 22,
    };
    let result = parse_host_login(input, invoker()).unwrap();
    assert_eq!(result, expected);
}

#[test]
fn test_parse_host_login_valid_multiple_users() {
    let input = "user@sudo@host";
    let expected = RemoteHost {
        username: "user".to_string(),
        sudo: Some("sudo".to_string()),
        host: "host".to_string(),
        port: 22,
    };
    let result = parse_host_login(input, invoker()).unwrap();
    assert_eq!(result, expected);
}

#[test]
fn test_parse_host_login_with_port() {
    let input = "user@host:2222";
    let expected = RemoteHost {
        username: "user".to_string(),
        sudo: None,
        host: "host".to_string(),
        port: 2222,
    };
    let result = parse_host_login(input, invoker()).unwrap();
    assert_eq!(result, expected);
}

#[test]
fn test_parse_host_login_invalid_user() {
    let input = "user@sudo@extra@host";
    let result = parse_host_login(input, invoker());
    assert!(result.is_err());
}

#[test]
fn test_parse_host_login_no_host() {
    let input = "user@";
    let result = parse_host_login(input, invoker());
    assert!(result.is_err());
}

#[test]
fn test_parse_host_login_env_user() {
    let input = "host";
    let expected = RemoteHost {
        username: "env_user".to_string(),
        sudo: None,
        host: "host".to_string(),
        port: 22,
    };
    let result = parse_host_login(input, Some("env_user".to_string())).unwrap();
    assert_eq!(result, expected);
}

#[test]
fn host_spec_with_login_user_only() {
    let parsed = parse_host_login("alice@example.com", None).unwrap();
    assert_eq!(parsed.username, "alice");
    assert_eq!(parsed.sudo, None);
    assert_eq!(parsed.host, "example.com");
    assert_eq!(parsed.port, 22);
    assert_eq!(DEFAULT_PORT, 22);
}

#[test]
fn host_spec_with_escalation_and_port() {
    let parsed = parse_host_login("alice@root@example.com:2222", None).unwrap();
    assert_eq!(
        parsed,
        RemoteHost {
            username: "alice".to_string(),
            sudo: Some("root".to_string()),
            host: "example.com".to_string(),
            port: 2222,
        }
    );
}

#[test]
fn host_spec_without_user_takes_the_invoker() {
    let parsed = parse_host_login("example.com", Some("carol".to_string())).unwrap();
    assert_eq!(parsed.username, "carol");
    assert_eq!(parsed.sudo, None);
    assert_eq!(parsed.host, "example.com");
    assert_eq!(parsed.port, 22);
}

#[test]
fn host_spec_without_user_and_invoker_is_refused() {
    assert_eq!(parse_host_login("example.com", None), Err(HostSpecError::UnknownInvoker));
}

#[test]
fn host_spec_with_three_users_is_refused() {
    assert_eq!(parse_host_login("a@b@c@host", invoker()), Err(HostSpecError::InvalidUserName));
}

#[test]
fn host_spec_with_empty_host_is_refused() {
    assert_eq!(parse_host_login("user@", invoker()), Err(HostSpecError::InvalidHost));
    assert_eq!(parse_host_login("", invoker()), Err(HostSpecError::InvalidHost));
    assert_eq!(parse_host_login("user@:22", invoker()), Err(HostSpecError::InvalidHost));
}

#[test]
fn host_spec_with_two_colons_is_refused() {
    assert_eq!(parse_host_login("user@host:22:33", invoker()), Err(HostSpecError::InvalidHost));
}

#[test]
fn host_spec_with_bad_port_is_refused() {
    assert_eq!(parse_host_login("user@host:ssh", invoker()), Err(HostSpecError::InvalidPort));
    assert_eq!(parse_host_login("user@host:", invoker()), Err(HostSpecError::InvalidPort));
    assert_eq!(parse_host_login("user@host:65536", invoker()), Err(HostSpecError::InvalidPort));
    assert_eq!(parse_host_login("user@host:-1", invoker()), Err(HostSpecError::InvalidPort));
}

#[test]
fn host_spec_port_is_judged_before_the_empty_host() {
    assert_eq!(parse_host_login("user@:x", invoker()), Err(HostSpecError::InvalidPort));
}

#[test]
fn host_spec_users_are_judged_before_the_host() {
    assert_eq!(parse_host_login("a@b@c@", invoker()), Err(HostSpecError::InvalidUserName));
    assert_eq!(parse_host_login("host:1:2", None), Err(HostSpecError::UnknownInvoker));
}

#[test]
fn host_spec_port_limits() {
    assert_eq!(parse_host_login("u@h:65535", None).unwrap().port, 65535);
    assert_eq!(parse_host_login("u@h:0", None).unwrap().port, 0);
    assert_eq!(parse_host_login("u@h:+22", None).unwrap().port, 22);
    assert_eq!(parse_host_login("u@h:00022", None).unwrap().port, 22);
}

#[test]
fn host_spec_empty_user_names_are_kept() {
    let parsed = parse_host_login("@host", None).unwrap();
    assert_eq!(parsed.username, "");
    let parsed = parse_host_login("@@host", None).unwrap();
    assert_eq!(parsed.username, "");
    assert_eq!(parsed.sudo, Some(String::new()));
}

#[test]
fn parse_users_keeps_empty_names() {
    assert_eq!(parse_users("@@host"), vec![String::new(), String::new()]);
    assert_eq!(parse_users("host"), Vec::<String>::new());
    assert_eq!(parse_users("a@b@c@host"), vec!["a".to_string(), "b".to_string(), "c".to_string()]);
}

#[test]
fn remote_host_shows_the_effective_user() {
    let plain = parse_host_login("alice@example.com", None).unwrap();
    assert_eq!(plain.to_string(), "alice@example.com");
    let escalated = parse_host_login("alice@root@example.com:2222", None).unwrap();
    assert_eq!(escalated.to_string(), "root@example.com");
}

#[test]
fn remote_host_clone_is_equal() {
    let host = parse_host_login("alice@root@example.com:2222", None).unwrap();
    assert_eq!(host.clone(), host);
}

#[test]
fn host_spec_error_texts() {
    assert_eq!(HostSpecError::InvalidUserName.to_string(), "Invalid user name");
    assert_eq!(HostSpecError::InvalidHost.to_string(), "Invalid host");
    assert_eq!(HostSpecError::InvalidPort.to_string(), "Invalid port");
    assert_eq!(
        HostSpecError::UnknownInvoker.to_string(),
        "No user name given and none known for the invoker"
    );
}
