use warp_ssh_manager::types::{
    AuthType, NodeKind, OneKeyCredentialKind, PortForward, PortForwardKind, SshAdvancedConfig,
    SshServerInfo,
};

fn forward(kind: PortForwardKind) -> PortForward {
    PortForward {
        kind,
        bind_host: "127.0.0.1".into(),
        bind_port: 8000,
        target_host: Some("example.com".into()),
        target_port: Some(80),
        description: None,
    }
}

#[test]
fn local_and_remote_forward_specs_include_target() {
    assert_eq!(
        forward(PortForwardKind::Local).to_ssh_spec().as_deref(),
        Some("127.0.0.1:8000:example.com:80")
    );
    assert_eq!(
        forward(PortForwardKind::Remote).to_ssh_spec().as_deref(),
        Some("127.0.0.1:8000:example.com:80")
    );
}

#[test]
fn dynamic_forward_spec_is_bind_only() {
    let mut f = forward(PortForwardKind::Dynamic);
    f.target_host = None;
    f.target_port = None;
    assert_eq!(f.to_ssh_spec().as_deref(), Some("127.0.0.1:8000"));
}

#[test]
fn local_forward_without_target_yields_none() {
    let mut f = forward(PortForwardKind::Local);
    f.target_port = None;
    assert_eq!(f.to_ssh_spec(), None);
}

#[test]
fn config_spec_uses_space_separated_endpoints() {
    assert_eq!(
        forward(PortForwardKind::Local).to_config_spec().as_deref(),
        Some("127.0.0.1:8000 example.com:80")
    );
    assert_eq!(
        forward(PortForwardKind::Remote).to_config_spec().as_deref(),
        Some("127.0.0.1:8000 example.com:80")
    );
}

#[test]
fn config_spec_omits_empty_bind_host() {
    let mut f = forward(PortForwardKind::Local);
    f.bind_host = String::new();
    assert_eq!(f.to_config_spec().as_deref(), Some("8000 example.com:80"));
}

#[test]
fn dynamic_config_spec_is_local_only() {
    let mut f = forward(PortForwardKind::Dynamic);
    f.target_host = None;
    f.target_port = None;
    assert_eq!(f.to_config_spec().as_deref(), Some("127.0.0.1:8000"));
}

#[test]
fn from_config_spec_parses_local_with_bind_host() {
    let f = PortForward::from_config_spec(PortForwardKind::Local, "127.0.0.1:8080 localhost:80")
        .unwrap();
    assert_eq!(f.bind_host, "127.0.0.1");
    assert_eq!(f.bind_port, 8080);
    assert_eq!(f.target_host.as_deref(), Some("localhost"));
    assert_eq!(f.target_port, Some(80));
}

#[test]
fn from_config_spec_parses_local_without_bind_host() {
    let f = PortForward::from_config_spec(PortForwardKind::Remote, "9999 db.internal:5432").unwrap();
    assert_eq!(f.bind_host, "");
    assert_eq!(f.bind_port, 9999);
    assert_eq!(f.target_host.as_deref(), Some("db.internal"));
    assert_eq!(f.target_port, Some(5432));
}

#[test]
fn from_config_spec_parses_dynamic() {
    let f = PortForward::from_config_spec(PortForwardKind::Dynamic, "1080").unwrap();
    assert_eq!(f.bind_host, "");
    assert_eq!(f.bind_port, 1080);
    assert_eq!(f.target_host, None);
    assert_eq!(f.target_port, None);
}

#[test]
fn config_spec_round_trips() {
    for (kind, spec) in [
        (PortForwardKind::Local, "127.0.0.1:8080 localhost:80"),
        (PortForwardKind::Remote, "9999 db.internal:5432"),
        (PortForwardKind::Dynamic, "1080"),
    ] {
        let parsed = PortForward::from_config_spec(kind, spec).unwrap();
        assert_eq!(parsed.to_config_spec().as_deref(), Some(spec));
    }
}

#[test]
fn from_config_spec_rejects_malformed() {
    assert!(PortForward::from_config_spec(PortForwardKind::Local, "8080").is_none());
    assert!(PortForward::from_config_spec(PortForwardKind::Local, "").is_none());
    assert!(PortForward::from_config_spec(PortForwardKind::Dynamic, "1080 extra").is_none());
    assert!(PortForward::from_config_spec(PortForwardKind::Local, "notaport localhost:80").is_none());
}

#[test]
fn ssh_flag_matches_kind() {
    assert_eq!(forward(PortForwardKind::Local).ssh_flag(), "-L");
    assert_eq!(forward(PortForwardKind::Remote).ssh_flag(), "-R");
    assert_eq!(forward(PortForwardKind::Dynamic).ssh_flag(), "-D");
}

// ---- Own tests ---------------------------------------------------------------

#[test]
fn db_spellings_round_trip() {
    for k in [NodeKind::Folder, NodeKind::Server] {
        assert_eq!(NodeKind::parse(k.as_db_str()), Some(k));
    }
    for a in [AuthType::Password, AuthType::Key, AuthType::OneKey] {
        assert_eq!(AuthType::parse(a.as_db_str()), Some(a));
    }
    for o in [OneKeyCredentialKind::Password, OneKeyCredentialKind::Key] {
        assert_eq!(OneKeyCredentialKind::parse(o.as_db_str()), Some(o));
    }
    assert_eq!(NodeKind::parse("Folder"), None);
    assert_eq!(AuthType::parse(""), None);
}

#[test]
fn ipv6_target_keeps_its_colons() {
    let f = PortForward::from_config_spec(PortForwardKind::Local, "8080 [::1]:80").unwrap();
    assert_eq!(f.target_host.as_deref(), Some("[::1]"));
    assert_eq!(f.target_port, Some(80));
}

#[test]
fn new_default_server_uses_port_22_and_password_auth() {
    let s = SshServerInfo::new_default("id-1".into());
    assert_eq!(s.node_id, "id-1");
    assert_eq!(s.port, 22);
    assert_eq!(s.auth_type, AuthType::Password);
    assert_eq!(s.advanced, SshAdvancedConfig::default());
}

#[test]
fn clone_from_template_takes_a_new_id_and_drops_last_connected() {
    let mut s = SshServerInfo::new_default("a".into());
    s.host = "h".into();
    s.port = 2200;
    let c = SshServerInfo::clone_from_template(&s, "b".into());
    assert_eq!(c.node_id, "b");
    assert_eq!(c.host, "h");
    assert_eq!(c.port, 2200);
    assert_eq!(c.last_connected_at, None);
}
