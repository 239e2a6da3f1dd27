use warp_ssh_manager::ssh_command::{
    build_key_auth_cmd_args, build_password_auth_cmd_args, build_password_auth_stdin,
    build_ssh_alias_command_line, build_ssh_args, build_ssh_command_line, connection_result,
    finalize_password_test_result, key_test_verdict, require_password, uses_password,
};
use warp_ssh_manager::types::{AuthType, ConnectionStatus, PortForward, PortForwardKind, SshServerInfo};

fn server() -> SshServerInfo {
    SshServerInfo {
        node_id: "n".into(),
        host: "1.2.3.4".into(),
        port: 22,
        username: "alice".into(),
        auth_type: AuthType::Password,
        key_path: None,
        credential_id: None,
        startup_command: None,
        notes: None,
        last_connected_at: None,
        advanced: Default::default(),
    }
}

#[test]
fn default_port_omitted() {
    let s = server();
    assert_eq!(build_ssh_args(&s), vec!["ssh", "alice@1.2.3.4"]);
    let line = build_ssh_command_line(&s);
    assert!(
        line == "ssh -- alice@1.2.3.4" || line == "ssh -- 'alice@1.2.3.4'",
        "unexpected: {line}"
    );
}

#[test]
fn command_line_separates_destination_with_double_dash() {
    let mut s = server();
    s.username = String::new();
    s.host = "-oProxyCommand=touch /tmp/pwned".into();
    let line = build_ssh_command_line(&s);
    let dash_dash = line.find(" -- ").expect("`--` must precede the destination");
    let host = line.find("-oProxyCommand").expect("host present in command line");
    assert!(dash_dash < host, "`--` must come before the host: {line}");
}

#[test]
fn custom_port_uses_dash_p() {
    let mut s = server();
    s.port = 2222;
    assert_eq!(build_ssh_args(&s), vec!["ssh", "-p", "2222", "alice@1.2.3.4"]);
}

#[test]
fn key_auth_emits_dash_i() {
    let mut s = server();
    s.auth_type = AuthType::Key;
    s.key_path = Some("/home/u/.ssh/id_ed25519".into());
    assert_eq!(
        build_ssh_args(&s),
        vec!["ssh", "-i", "/home/u/.ssh/id_ed25519", "alice@1.2.3.4"]
    );
}

#[test]
fn key_auth_without_path_is_skipped() {
    let mut s = server();
    s.auth_type = AuthType::Key;
    s.key_path = None;
    assert_eq!(build_ssh_args(&s), vec!["ssh", "alice@1.2.3.4"]);
}

#[test]
fn empty_username_yields_host_only() {
    let mut s = server();
    s.username = String::new();
    assert_eq!(build_ssh_args(&s), vec!["ssh", "1.2.3.4"]);
}

#[test]
fn shell_escapes_spaces_in_path() {
    let mut s = server();
    s.auth_type = AuthType::Key;
    s.key_path = Some("/path with spaces/id_rsa".into());
    let line = build_ssh_command_line(&s);
    assert!(line.contains("'/path with spaces/id_rsa'"), "actual: {line}");
}

fn local_forward() -> PortForward {
    PortForward {
        kind: PortForwardKind::Local,
        bind_host: "127.0.0.1".into(),
        bind_port: 8080,
        target_host: Some("internal.example.com".into()),
        target_port: Some(80),
        description: None,
    }
}

#[test]
fn command_line_emits_local_forward_before_separator() {
    let mut s = server();
    s.advanced.port_forwards = vec![local_forward()];
    let line = build_ssh_command_line(&s);
    let flag_pos = line
        .find("-L '127.0.0.1:8080:internal.example.com:80'")
        .expect("local forward spec must appear");
    let sep_pos = line.find(" -- ").expect("`--` separator must appear");
    assert!(flag_pos < sep_pos, "forward option must precede `--`; got {line}");
}

#[test]
fn command_line_emits_remote_forward() {
    let mut s = server();
    s.advanced.port_forwards = vec![PortForward {
        kind: PortForwardKind::Remote,
        bind_host: "0.0.0.0".into(),
        bind_port: 9000,
        target_host: Some("localhost".into()),
        target_port: Some(3000),
        description: None,
    }];
    let line = build_ssh_command_line(&s);
    assert!(
        line.contains("-R '0.0.0.0:9000:localhost:3000'"),
        "expected remote forward spec; got {line}"
    );
}

#[test]
fn command_line_emits_dynamic_forward_bind_only() {
    let mut s = server();
    s.advanced.port_forwards = vec![PortForward {
        kind: PortForwardKind::Dynamic,
        bind_host: "127.0.0.1".into(),
        bind_port: 1080,
        target_host: None,
        target_port: None,
        description: None,
    }];
    let line = build_ssh_command_line(&s);
    assert!(line.contains("-D '127.0.0.1:1080'"), "expected dynamic forward spec; got {line}");
    assert!(
        !line.contains("-L") && !line.contains("-R"),
        "dynamic forward must not emit -L/-R; got {line}"
    );
}

#[test]
fn command_line_emits_multiple_forwards_in_order() {
    let mut s = server();
    s.advanced.port_forwards = vec![
        local_forward(),
        PortForward {
            kind: PortForwardKind::Dynamic,
            bind_host: "127.0.0.1".into(),
            bind_port: 1080,
            target_host: None,
            target_port: None,
            description: None,
        },
    ];
    let line = build_ssh_command_line(&s);
    let local_pos = line.find("-L ").expect("local forward present");
    let dynamic_pos = line.find("-D ").expect("dynamic forward present");
    assert!(local_pos < dynamic_pos, "forwards must keep their configured order; got {line}");
}

#[test]
fn command_line_skips_invalid_forward() {
    let mut s = server();
    s.advanced.port_forwards = vec![PortForward {
        kind: PortForwardKind::Local,
        bind_host: "127.0.0.1".into(),
        bind_port: 8080,
        target_host: None,
        target_port: None,
        description: None,
    }];
    let line = build_ssh_command_line(&s);
    assert!(!line.contains("-L"), "invalid forward must be skipped; got {line}");
}

#[test]
fn build_ssh_args_never_emits_forwards() {
    let mut s = server();
    s.advanced.port_forwards = vec![local_forward()];
    let args = build_ssh_args(&s);
    assert!(
        !args.iter().any(|a| a == "-L" || a == "-R" || a == "-D"),
        "build_ssh_args must not emit port forwards; got {args:?}"
    );
}

#[test]
fn onekey_key_auth_emits_dash_i_when_key_path_is_resolved() {
    let mut s = server();
    s.auth_type = AuthType::OneKey;
    s.key_path = Some("/home/u/.ssh/shared_ed25519".into());
    assert_eq!(
        build_ssh_args(&s),
        vec!["ssh", "-i", "/home/u/.ssh/shared_ed25519", "alice@1.2.3.4"]
    );
}

#[test]
fn test_connection_key_auth_uses_batch_mode() {
    let mut s = server();
    s.auth_type = AuthType::Key;
    s.key_path = Some("/home/user/.ssh/id_rsa".into());
    let args = build_ssh_args(&s);
    assert!(args.contains(&"-i".to_string()));
    assert!(args.contains(&"/home/user/.ssh/id_rsa".to_string()));
}

#[test]
fn connection_status_equality() {
    assert_eq!(ConnectionStatus::Online, ConnectionStatus::Online);
    assert_eq!(ConnectionStatus::Offline, ConnectionStatus::Offline);
    assert_eq!(ConnectionStatus::Unknown, ConnectionStatus::Unknown);
    assert_ne!(ConnectionStatus::Online, ConnectionStatus::Offline);
    assert_ne!(ConnectionStatus::Online, ConnectionStatus::Unknown);
    assert_ne!(ConnectionStatus::Offline, ConnectionStatus::Unknown);
}

#[test]
fn build_password_auth_stdin_contains_password_with_newline() {
    let bytes = build_password_auth_stdin("s3cret-pass");
    assert_eq!(bytes.as_slice(), b"s3cret-pass\n");
}

#[test]
fn build_password_auth_stdin_empty_password_still_has_newline() {
    let bytes = build_password_auth_stdin("");
    assert_eq!(bytes.as_slice(), b"\n");
}

#[test]
fn build_password_auth_stdin_unicode_password() {
    let bytes = build_password_auth_stdin("密码🔐");
    let mut expected = "密码🔐".as_bytes().to_vec();
    expected.push(b'\n');
    assert_eq!(bytes.as_slice(), expected.as_slice());
}

#[test]
fn build_ssh_args_does_not_emit_sshpass() {
    let s = server();
    let args = build_ssh_args(&s);
    assert!(!args.iter().any(|a| a == "sshpass"), "build_ssh_args must not emit sshpass; got {args:?}");
}

#[test]
fn password_auth_args_no_keyboard_interactive() {
    let s = server();
    let args = build_password_auth_cmd_args(&s);
    let joined = args.join(" ");
    assert!(
        !joined.contains("keyboard-interactive"),
        "test_password_auth must NOT use keyboard-interactive; got {args:?}"
    );
    assert!(
        joined.contains("PreferredAuthentications=password"),
        "expected PreferredAuthentications=password; got {args:?}"
    );
    let after_pref = joined.split("PreferredAuthentications=").nth(1).unwrap_or("");
    assert!(
        !after_pref.starts_with("password,"),
        "PreferredAuthentications should not list other methods after password; got {args:?}"
    );
}

#[test]
fn password_auth_args_disable_kbd_interactive() {
    let s = server();
    let args = build_password_auth_cmd_args(&s);
    let joined = args.join(" ");
    assert!(
        joined.contains("KbdInteractiveAuthentication=no"),
        "missing KbdInteractiveAuthentication=no; got {args:?}"
    );
}

#[test]
fn password_auth_args_ends_with_echo_ok_command() {
    let s = server();
    let args = build_password_auth_cmd_args(&s);
    assert!(!args.is_empty(), "cmd_args is empty: {args:?}");
    let last = args.last().unwrap();
    assert_eq!(last, "echo ok", "cmd_args must end with `echo ok` as remote command; got {args:?}");
}

#[test]
fn password_auth_args_destination_before_echo_ok_and_after_options() {
    let s = server();
    let args = build_password_auth_cmd_args(&s);
    let joined = args.join(" ");
    let dest_pos = joined.find("alice@1.2.3.4").expect("destination must appear in args");
    let echo_pos = joined.find("echo ok").expect("`echo ok` must appear in args");
    assert!(dest_pos < echo_pos, "destination must come before `echo ok`; got joined: {joined}");
    let last_o_pos = joined.rfind("-o ").expect("expected at least one -o option");
    assert!(last_o_pos < dest_pos, "all -o options must come before destination; got joined: {joined}");
}

#[test]
fn key_auth_args_destination_comes_after_options() {
    let mut s = server();
    s.auth_type = AuthType::Key;
    s.key_path = Some("/home/user/.ssh/id_rsa".into());
    let args = build_key_auth_cmd_args(&s);
    let joined = args.join(" ");
    let dest_pos = joined.find("alice@1.2.3.4").expect("destination must appear in args");
    let echo_pos = joined.find("echo ok").expect("`echo ok` must appear in args");
    let last_o_pos = joined.rfind("-o ").expect("expected at least one -o option");
    assert!(last_o_pos < dest_pos, "all -o options must come before destination; got joined: {joined}");
    assert!(dest_pos < echo_pos, "destination must come before `echo ok`; got joined: {joined}");
}

#[test]
fn alias_command_line_passes_only_the_alias_after_separator() {
    assert_eq!(build_ssh_alias_command_line("prod-web"), "ssh -- prod-web");
}

#[test]
fn alias_command_line_escapes_shell_metacharacters() {
    let cmd = build_ssh_alias_command_line("foo; rm -rf /");
    assert_eq!(cmd, "ssh -- 'foo; rm -rf /'");
}

#[test]
fn alias_command_line_guards_against_leading_dash() {
    let cmd = build_ssh_alias_command_line("-oProxyCommand=evil");
    assert!(cmd.starts_with("ssh -- "));
}

// ---- Own tests ---------------------------------------------------------------

#[test]
fn key_auth_args_are_exact() {
    let mut s = server();
    s.auth_type = AuthType::Key;
    s.key_path = Some("/k".into());
    s.port = 2200;
    assert_eq!(
        build_key_auth_cmd_args(&s),
        vec![
            "ssh", "-p", "2200", "-i", "/k", "-o", "BatchMode=yes", "-o", "ConnectTimeout=5", "-o",
            "StrictHostKeyChecking=no", "-o", "LogLevel=ERROR", "--", "alice@1.2.3.4", "echo ok",
        ]
    );
}

#[test]
fn password_auth_args_are_exact() {
    let s = server();
    assert_eq!(
        build_password_auth_cmd_args(&s),
        vec![
            "-o",
            "BatchMode=no",
            "-o",
            "PreferredAuthentications=password",
            "-o",
            "KbdInteractiveAuthentication=no",
            "-o",
            "NumberOfPasswordPrompts=1",
            "-o",
            "ConnectTimeout=5",
            "-o",
            "StrictHostKeyChecking=no",
            "-o",
            "LogLevel=ERROR",
            "--",
            "alice@1.2.3.4",
            "echo ok",
        ]
    );
}

#[test]
fn command_line_escapes_quotes_and_bangs() {
    let mut s = server();
    s.username = "o'neil!".into();
    assert_eq!(build_ssh_command_line(&s), "ssh -- 'o'\\''neil'\\!'@1.2.3.4'");
}

#[test]
fn empty_alias_is_quoted() {
    assert_eq!(build_ssh_alias_command_line(""), "ssh -- ''");
}

#[test]
fn password_verdicts() {
    assert_eq!(finalize_password_test_result(true, "ok\n", ""), Ok(()));
    assert_eq!(
        finalize_password_test_result(false, "", "alice@h: Permission denied (password).\n"),
        Err("Authentication failed: wrong password (alice@h: Permission denied (password).)".to_string())
    );
    let long = format!("Authentication failed {}", "x".repeat(300));
    let got = finalize_password_test_result(false, "", &long).unwrap_err();
    let snippet: String = long.chars().take(200).collect();
    assert_eq!(got, format!("Authentication failed: wrong password ({snippet}...)"));
    assert_eq!(
        finalize_password_test_result(true, " banner ok", " warn "),
        Err("Unexpected output: stdout=banner ok stderr=warn".to_string())
    );
}

#[test]
fn key_verdicts() {
    assert_eq!(key_test_verdict(true, " ok \n", ""), Ok(()));
    assert_eq!(key_test_verdict(false, "ok", "noise"), Ok(()));
    assert_eq!(
        key_test_verdict(true, "motd says ok", ""),
        Err("Unexpected output: motd says ok".to_string())
    );
    assert_eq!(key_test_verdict(false, "", "refused"), Err("refused".to_string()));
}

#[test]
fn connection_results() {
    let r = connection_result(Ok(()), 12);
    assert_eq!(r.status, ConnectionStatus::Online);
    assert_eq!(r.latency_ms, Some(12));
    assert_eq!(r.error_message, None);
    let r = connection_result(Err("Password not provided".into()), 3);
    assert_eq!(r.status, ConnectionStatus::Offline);
    assert_eq!(r.error_message.as_deref(), Some("Password not provided"));
}

#[test]
fn missing_password_is_refused() {
    assert_eq!(require_password::<String>(None), Err("Password not provided".to_string()));
    assert_eq!(require_password(Some("pw".to_string())), Ok("pw".to_string()));
}

#[test]
fn test_connection_requires_password_for_password_auth() {
    let s = server();
    assert!(uses_password(s.auth_type));
    let outcome = require_password::<String>(None).map(|_| ());
    let result = connection_result(outcome, 12);
    assert_eq!(result.status, ConnectionStatus::Offline);
    assert!(result.error_message.unwrap().contains("Password not provided"));
    assert_eq!(result.latency_ms, Some(12));
}

#[test]
fn test_connection_requires_password_for_onekey_auth() {
    let mut s = server();
    s.auth_type = AuthType::OneKey;
    assert!(uses_password(s.auth_type));
    let outcome = require_password::<String>(None).map(|_| ());
    let result = connection_result(outcome, 3);
    assert_eq!(result.status, ConnectionStatus::Offline);
    assert!(result.error_message.unwrap().contains("Password not provided"));
    assert_eq!(result.latency_ms, Some(3));
}

#[test]
fn key_auth_test_needs_no_password() {
    assert!(!uses_password(AuthType::Key));
}
