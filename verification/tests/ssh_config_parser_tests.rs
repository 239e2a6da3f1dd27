use warp_ssh_manager::ssh_config_parser::{
    config_path_under, default_ssh_config_path, expand_tilde_with, load_outcome, load_result,
    parse_ssh_config, ConfigRead, LoadOutcome, SshConfigCandidate,
};

/// All fields `None` but the alias.
fn cand(alias: &str) -> SshConfigCandidate {
    SshConfigCandidate {
        alias: alias.into(),
        hostname: None,
        user: None,
        port: None,
        identity_file: None,
    }
}

#[test]
fn single_host_with_all_fields() {
    let input = "\
Host prodbox
    HostName prod.example.com
    User alice
    Port 2222
    IdentityFile /home/alice/.ssh/id_ed25519
";
    let got = parse_ssh_config(input);
    assert_eq!(
        got,
        vec![SshConfigCandidate {
            alias: "prodbox".into(),
            hostname: Some("prod.example.com".into()),
            user: Some("alice".into()),
            port: Some(2222),
            identity_file: Some("/home/alice/.ssh/id_ed25519".into()),
        }]
    );
}

#[test]
fn empty_file_produces_no_candidates() {
    assert_eq!(parse_ssh_config(""), vec![]);
}

#[test]
fn comments_only_produces_no_candidates() {
    assert_eq!(parse_ssh_config("# top comment\n# another\n"), vec![]);
}

#[test]
fn host_with_only_alias_has_no_hostname_field() {
    assert_eq!(parse_ssh_config("Host foo\n"), vec![cand("foo")]);
}

#[test]
fn multiple_hosts_in_order() {
    let input = "\
Host a
    User x
Host b
    User y
Host c
    User z
";
    let got = parse_ssh_config(input);
    let users: Vec<_> = got.iter().map(|c| (c.alias.as_str(), c.user.as_deref())).collect();
    assert_eq!(users, vec![("a", Some("x")), ("b", Some("y")), ("c", Some("z"))]);
}

#[test]
fn wildcard_star_host_skipped() {
    let input = "\
Host *.prod
    User root
Host realbox
    User me
";
    let got = parse_ssh_config(input);
    assert_eq!(got, vec![SshConfigCandidate { user: Some("me".into()), ..cand("realbox") }]);
}

#[test]
fn wildcard_question_host_skipped() {
    let input = "\
Host srv?
    User x
";
    assert_eq!(parse_ssh_config(input), vec![]);
}

#[test]
fn negation_host_skipped() {
    let input = "\
Host !bad
    User x
";
    assert_eq!(parse_ssh_config(input), vec![]);
}

#[test]
fn host_with_multiple_aliases_expands_to_separate_candidates() {
    let input = "\
Host a b c
    Port 22
    User shared
";
    let got = parse_ssh_config(input);
    assert_eq!(got.len(), 3);
    for (i, alias) in ["a", "b", "c"].iter().enumerate() {
        assert_eq!(got[i].alias, *alias);
        assert_eq!(got[i].port, Some(22));
        assert_eq!(got[i].user.as_deref(), Some("shared"));
    }
}

#[test]
fn host_with_mixed_aliases_filters_wildcards_keeps_literals() {
    let input = "\
Host a *.prod b
    User shared
";
    let got = parse_ssh_config(input);
    let aliases: Vec<&str> = got.iter().map(|c| c.alias.as_str()).collect();
    assert_eq!(aliases, vec!["a", "b"]);
}

#[test]
fn match_block_ignored_until_next_host() {
    let input = "\
Host a
    User u_a
Match user someone
    User SHOULD_NOT_APPEAR
    Port 9999
Host b
    User u_b
";
    let got = parse_ssh_config(input);
    assert_eq!(got.len(), 2);
    assert_eq!(got[0].alias, "a");
    assert_eq!(got[0].user.as_deref(), Some("u_a"));
    assert_eq!(got[0].port, None, "Port 9999 from Match block must not leak into a");
    assert_eq!(got[1].alias, "b");
    assert_eq!(got[1].user.as_deref(), Some("u_b"));
}

#[test]
fn match_block_at_eof_does_not_panic() {
    let input = "\
Host a
    User u
Match user x
    User leak
";
    let got = parse_ssh_config(input);
    assert_eq!(got.len(), 1);
    assert_eq!(got[0].alias, "a");
    assert_eq!(got[0].user.as_deref(), Some("u"));
}

#[test]
fn include_directive_logged_and_skipped_outside_host() {
    let input = "\
Include ~/.ssh/work/*.conf
Host a
    User u
";
    let got = parse_ssh_config(input);
    assert_eq!(got, vec![SshConfigCandidate { user: Some("u".into()), ..cand("a") }]);
}

#[test]
fn port_invalid_string_yields_none() {
    let input = "Host a\n    Port not-a-number\n";
    assert_eq!(parse_ssh_config(input)[0].port, None);
}

#[test]
fn port_out_of_u16_range_yields_none() {
    let input = "Host a\n    Port 70000\n";
    assert_eq!(parse_ssh_config(input)[0].port, None);
}

#[test]
fn port_valid_yields_some() {
    let input = "Host a\n    Port 2222\n";
    assert_eq!(parse_ssh_config(input)[0].port, Some(2222));
}

#[test]
fn quoted_identity_file_has_quotes_stripped() {
    let input = "Host a\n    IdentityFile \"C:\\Users\\Jiaqi Jiang\\.ssh\\id\"\n";
    assert_eq!(
        parse_ssh_config(input)[0].identity_file,
        Some("C:\\Users\\Jiaqi Jiang\\.ssh\\id".to_string())
    );
}

#[test]
fn tilde_in_identity_file_expanded_to_home() {
    let input = "Host a\n    IdentityFile ~/keys/id\n";
    let got = parse_ssh_config(input);
    let path = got[0].identity_file.as_ref().expect("IdentityFile set");
    let home = dirs::home_dir().expect("test runner has home dir");
    let path = std::path::Path::new(path);
    assert!(path.starts_with(&home), "expected {path:?} to start with {home:?}");
    assert!(path.ends_with("keys/id"), "expected {path:?} to end with keys/id");
}

#[test]
fn case_insensitive_keywords() {
    let input = "host a\n    hOsTnAmE example.com\n    user alice\n    PORT 22\n";
    let got = parse_ssh_config(input);
    assert_eq!(
        got,
        vec![SshConfigCandidate {
            alias: "a".into(),
            hostname: Some("example.com".into()),
            user: Some("alice".into()),
            port: Some(22),
            identity_file: None,
        }]
    );
}

#[test]
fn repeated_field_first_wins() {
    let input = "Host a\n    Port 1\n    Port 2\n    User first\n    User second\n";
    let got = parse_ssh_config(input);
    assert_eq!(got[0].port, Some(1));
    assert_eq!(got[0].user.as_deref(), Some("first"));
}

#[test]
fn inline_trailing_comment_dropped_from_value() {
    let input = "Host a # primary box\n    User alice # admin\n";
    let got = parse_ssh_config(input);
    assert_eq!(got[0].alias, "a");
    assert_eq!(got[0].user.as_deref(), Some("alice"));
}

#[test]
fn leading_indent_tolerated() {
    let input = "  Host a\n\t  Port 22\n";
    let got = parse_ssh_config(input);
    assert_eq!(got[0].alias, "a");
    assert_eq!(got[0].port, Some(22));
}

#[test]
fn default_path_points_under_home_dot_ssh_config() {
    let got = default_ssh_config_path().expect("test runner has home dir");
    let home = dirs::home_dir().expect("test runner has home dir");
    let got = std::path::PathBuf::from(got);
    assert!(got.starts_with(&home), "{got:?} should start with {home:?}");
    assert!(got.ends_with("config"));
    assert!(
        got.to_string_lossy().replace('\\', "/").ends_with(".ssh/config"),
        "{got:?} should end with .ssh/config"
    );
}

// ---- Own tests ---------------------------------------------------------------

#[test]
fn crlf_lines_are_parsed_like_lf_lines() {
    let got = parse_ssh_config("Host a\r\n    User u\r\n");
    assert_eq!(got, vec![SshConfigCandidate { user: Some("u".into()), ..cand("a") }]);
}

#[test]
fn single_quoted_value_and_equals_free_keyword() {
    let got = parse_ssh_config("Host a\n    HostName 'h.example'\n");
    assert_eq!(got[0].hostname.as_deref(), Some("'h.example'"));
}

#[test]
fn body_before_any_host_is_ignored() {
    let got = parse_ssh_config("User nobody\nPort 1\nHost a\n");
    assert_eq!(got, vec![cand("a")]);
}

#[test]
fn load_outcome_maps_each_read() {
    match load_outcome(ConfigRead::Contents("Host a\n    User u\n".into())) {
        LoadOutcome::Loaded(v) => {
            assert_eq!(v.len(), 1);
            assert_eq!(v[0].alias, "a");
        }
        other => panic!("expected Loaded, got {other:?}"),
    }
    assert!(matches!(load_outcome(ConfigRead::Missing), LoadOutcome::NotFound));
    match load_outcome(ConfigRead::Failed("denied".into())) {
        LoadOutcome::Error(e) => assert_eq!(e, "denied"),
        other => panic!("expected Error, got {other:?}"),
    }
}

#[test]
fn load_result_without_home_reports_an_error() {
    let r = load_result(None, ConfigRead::Missing);
    assert_eq!(r.path, None);
    match r.outcome {
        LoadOutcome::Error(e) => assert_eq!(e, "Could not determine home directory"),
        other => panic!("expected Error, got {other:?}"),
    }
    let r = load_result(Some("/x/.ssh/config".into()), ConfigRead::Contents(String::new()));
    assert_eq!(r.path.as_deref(), Some("/x/.ssh/config"));
    assert!(matches!(r.outcome, LoadOutcome::Loaded(ref v) if v.is_empty()));
}

#[test]
fn first_port_declaration_wins_even_when_invalid() {
    let got = parse_ssh_config("Host a\n    Port abc\n    Port 22\n");
    assert_eq!(got.len(), 1);
    assert_eq!(got[0].port, None);
    let got = parse_ssh_config("Host a\n    Port 22\n    Port abc\n");
    assert_eq!(got[0].port, Some(22));
}

#[test]
fn config_path_under_joins_dot_ssh_and_config() {
    assert_eq!(config_path_under(None), None);
    let home = std::path::Path::new("/home/me");
    let got = config_path_under(Some(home.to_string_lossy().into_owned())).unwrap();
    assert_eq!(std::path::PathBuf::from(got), home.join(".ssh").join("config"));
}

#[test]
fn expand_tilde_with_joins_home_and_rest() {
    let home = std::path::Path::new("/home/me");
    let h = home.to_string_lossy().into_owned();
    let got = expand_tilde_with("~/.ssh/id_rsa", Some(h.as_str()));
    assert_eq!(std::path::PathBuf::from(got), home.join(".ssh/id_rsa"));
    assert_eq!(expand_tilde_with("~/.ssh/id_rsa", None), "~/.ssh/id_rsa");
    assert_eq!(expand_tilde_with("/etc/key", Some(h.as_str())), "/etc/key");
    assert_eq!(expand_tilde_with("~user/key", Some(h.as_str())), "~user/key");
}

#[test]
fn import_goes_block_by_block() {
    let input = "User x\nHost a b\n  HostName h\n  Port 7\n  HostName later\nMatch host c\n  User m\nHost *.p\n  User w\nHost d\n  IdentityFile \"k\"\n";
    let got = parse_ssh_config(input);
    let aliases: Vec<&str> = got.iter().map(|c| c.alias.as_str()).collect();
    assert_eq!(aliases, vec!["a", "b", "d"]);
    for c in &got[..2] {
        assert_eq!(c.hostname.as_deref(), Some("h"));
        assert_eq!(c.user, None);
        assert_eq!(c.port, Some(7));
    }
    assert_eq!(got[2].identity_file.as_deref(), Some("k"));
    assert_eq!(got[2].user, None);
}
