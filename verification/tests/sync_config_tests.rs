use warp_ssh_manager::ssh_config_parser::SshConfigCandidate;
use warp_ssh_manager::sync_config::{compute_node_sync, FieldChange, NodeSyncStatus, SyncField};
use warp_ssh_manager::types::{AuthType, ImportProvenance, SshAdvancedConfig, SshServerInfo};

fn imported_node(alias: &str) -> SshServerInfo {
    let mut info = SshServerInfo::new_default("node-1".into());
    info.host = alias.to_string();
    info.port = 22;
    info.username = "alice".into();
    info.advanced = SshAdvancedConfig {
        port_forwards: vec![],
        imported_from: Some(ImportProvenance {
            path: "/home/alice/.ssh/config".into(),
            alias: alias.to_string(),
        }),
    };
    info
}

fn candidate(alias: &str) -> SshConfigCandidate {
    SshConfigCandidate {
        alias: alias.into(),
        hostname: None,
        user: None,
        port: None,
        identity_file: None,
    }
}

#[test]
fn node_without_provenance_returns_none() {
    let info = SshServerInfo::new_default("manual".into());
    assert_eq!(compute_node_sync(&info, &[candidate("anything")]), None);
}

#[test]
fn missing_alias_reports_drift() {
    let info = imported_node("prodbox");
    let status = compute_node_sync(&info, &[candidate("other")]).expect("imported");
    assert_eq!(status, NodeSyncStatus::Drifted { alias: "prodbox".into() });
}

#[test]
fn matching_config_with_no_overrides_is_up_to_date() {
    let info = imported_node("prodbox");
    let status = compute_node_sync(&info, &[candidate("prodbox")]).expect("imported");
    assert_eq!(status, NodeSyncStatus::UpToDate);
}

#[test]
fn changed_port_and_user_produce_field_changes() {
    let info = imported_node("prodbox");
    let cand = SshConfigCandidate {
        user: Some("bob".into()),
        port: Some(2222),
        ..candidate("prodbox")
    };
    let status = compute_node_sync(&info, &[cand]).expect("imported");
    match status {
        NodeSyncStatus::Updated { changes, new_info } => {
            assert_eq!(changes.len(), 2);
            assert!(changes.contains(&FieldChange {
                field: SyncField::Port,
                old: "22".into(),
                new: "2222".into(),
            }));
            assert!(changes.contains(&FieldChange {
                field: SyncField::User,
                old: "alice".into(),
                new: "bob".into(),
            }));
            assert_eq!(new_info.port, 2222);
            assert_eq!(new_info.username, "bob");
            assert!(new_info.advanced.imported_from.is_some());
        }
        other => panic!("expected Updated, got {other:?}"),
    }
}

#[test]
fn omitted_user_does_not_blank_existing_username() {
    let info = imported_node("prodbox");
    let cand = SshConfigCandidate { port: Some(2200), ..candidate("prodbox") };
    let status = compute_node_sync(&info, &[cand]).expect("imported");
    match status {
        NodeSyncStatus::Updated { changes, new_info } => {
            assert_eq!(changes.len(), 1);
            assert_eq!(changes[0].field, SyncField::Port);
            assert_eq!(new_info.username, "alice");
        }
        other => panic!("expected Updated, got {other:?}"),
    }
}

#[test]
fn new_identity_flips_password_auth_to_key() {
    let mut info = imported_node("prodbox");
    info.auth_type = AuthType::Password;
    info.key_path = None;
    let cand = SshConfigCandidate {
        identity_file: Some("/home/alice/.ssh/id_ed25519".into()),
        ..candidate("prodbox")
    };
    let status = compute_node_sync(&info, &[cand]).expect("imported");
    match status {
        NodeSyncStatus::Updated { changes, new_info } => {
            assert_eq!(changes.len(), 1);
            assert_eq!(changes[0].field, SyncField::IdentityFile);
            assert_eq!(new_info.key_path.as_deref(), Some("/home/alice/.ssh/id_ed25519"));
            assert_eq!(new_info.auth_type, AuthType::Key);
        }
        other => panic!("expected Updated, got {other:?}"),
    }
}

#[test]
fn identity_change_keeps_onekey_auth() {
    let mut info = imported_node("prodbox");
    info.auth_type = AuthType::OneKey;
    info.key_path = Some("/old/key".into());
    let cand = SshConfigCandidate { identity_file: Some("/new/key".into()), ..candidate("prodbox") };
    let status = compute_node_sync(&info, &[cand]).expect("imported");
    match status {
        NodeSyncStatus::Updated { new_info, .. } => {
            assert_eq!(new_info.key_path.as_deref(), Some("/new/key"));
            assert_eq!(new_info.auth_type, AuthType::OneKey);
        }
        other => panic!("expected Updated, got {other:?}"),
    }
}

// ---- Own tests ---------------------------------------------------------------

#[test]
fn field_labels() {
    assert_eq!(SyncField::Port.label(), "port");
    assert_eq!(SyncField::User.label(), "user");
    assert_eq!(SyncField::IdentityFile.label(), "identity");
}

#[test]
fn empty_user_in_config_is_ignored() {
    let info = imported_node("prodbox");
    let cand = SshConfigCandidate { user: Some(String::new()), ..candidate("prodbox") };
    assert_eq!(compute_node_sync(&info, &[cand]), Some(NodeSyncStatus::UpToDate));
}

#[test]
fn first_candidate_with_the_alias_is_used() {
    let info = imported_node("prodbox");
    let first = SshConfigCandidate { port: Some(22), ..candidate("prodbox") };
    let second = SshConfigCandidate { port: Some(2222), ..candidate("prodbox") };
    assert_eq!(
        compute_node_sync(&info, &[candidate("x"), first, second]),
        Some(NodeSyncStatus::UpToDate)
    );
}

#[test]
fn identity_change_reports_old_key_and_applying_it_is_final() {
    let mut info = imported_node("prodbox");
    info.key_path = Some("/old/key".into());
    info.auth_type = AuthType::Key;
    let cand = SshConfigCandidate { identity_file: Some("/new/key".into()), ..candidate("prodbox") };
    let cands = [cand];
    match compute_node_sync(&info, &cands).expect("imported") {
        NodeSyncStatus::Updated { changes, new_info } => {
            assert_eq!(
                changes,
                vec![FieldChange {
                    field: SyncField::IdentityFile,
                    old: "/old/key".into(),
                    new: "/new/key".into(),
                }]
            );
            assert_eq!(compute_node_sync(&new_info, &cands), Some(NodeSyncStatus::UpToDate));
        }
        other => panic!("expected Updated, got {other:?}"),
    }
}
