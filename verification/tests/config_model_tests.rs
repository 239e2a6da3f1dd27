use warp_ssh_manager::config_model::{CoreHostFields, ForwardEntry, SshConfigDocument};
use warp_ssh_manager::types::PortForwardKind;

/// Anonymized real-world config. `\t` = the tab indentation SCE writes.
const FIXTURE: &str = "Include ~/.ssh/work/*.conf

Host github.com
\tUser git
\tHostName github.com
\tIdentityFile ~/.ssh/id_rsa
\tIdentitiesOnly yes
\tIdentityAgent none

#SCE_GROUP:53B0A32B-AD88-4368-9EB3-9568BEDCDF52:::Dvuelta

# synchronizoho PRO - LAN
Host synchronizoho
\tUser svc.tasks.pro
\tHostName 192.168.10.220
\tPort 9022
\t#SCEGroup 53B0A32B-AD88-4368-9EB3-9568BEDCDF52
\t#SCETags Purple

#SCE_GROUP:CD353C24-8FC7-4E7E-8E87-596749F78757:::Personal

Host dos2locos.example
\tUser ubuntu
\tHostName monitor.example.test
\tPort 9922
\tlocalforward 9999 localhost:9000
\tlocalforward 8880 192.168.1.142:80
\t#SCEIcon home
\t#SCEGroup CD353C24-8FC7-4E7E-8E87-596749F78757

#SCE_GROUP:FD5FCA8E-DA89-4CD4-B0BC-F82BC0EC2D2E:::AWS

# Servidor Web
Host awsbastion
\tUser ec2-user
\tHostName 18.0.0.1
\tIdentityFile ~/.ssh/bastion.pem
\t#SCEGroup FD5FCA8E-DA89-4CD4-B0BC-F82BC0EC2D2E

# Servidor interno
# ProxyJump awsbastion
Host awsinternal
\tUser ec2-user
\tHostName 10.0.0.20
\tIdentityFile ~/.ssh/internal.pem
\tLocalForward 0.0.0.0:9201 localhost:9200
\tProxyJump awsbastion
\t#SCEGroup FD5FCA8E-DA89-4CD4-B0BC-F82BC0EC2D2E

Match host *.internal
\tForwardAgent yes
";

fn doc() -> SshConfigDocument {
    SshConfigDocument::parse(FIXTURE)
}

// ---- Round-trip -------------------------------------------------------------

#[test]
fn round_trip_is_byte_for_byte_identical() {
    assert_eq!(doc().to_config_string(), FIXTURE);
}

#[test]
fn round_trip_is_idempotent() {
    let once = doc().to_config_string();
    let twice = SshConfigDocument::parse(&once).to_config_string();
    assert_eq!(once, twice);
}

#[test]
fn empty_input_round_trips_to_empty() {
    assert_eq!(SshConfigDocument::parse("").to_config_string(), "");
}

#[test]
fn file_without_trailing_newline_is_preserved() {
    let input = "Host a\n\tUser x";
    assert_eq!(SshConfigDocument::parse(input).to_config_string(), input);
}

// ---- Decoding ---------------------------------------------------------------

#[test]
fn groups_are_decoded_in_order() {
    let groups = doc().groups();
    let names: Vec<&str> = groups.iter().map(|g| g.name.as_str()).collect();
    assert_eq!(names, vec!["Dvuelta", "Personal", "AWS"]);
    assert_eq!(groups[0].uuid, "53B0A32B-AD88-4368-9EB3-9568BEDCDF52");
}

#[test]
fn host_aliases_lists_every_host() {
    assert_eq!(
        doc().host_aliases(),
        vec![
            "github.com",
            "synchronizoho",
            "dos2locos.example",
            "awsbastion",
            "awsinternal"
        ]
    );
}

#[test]
fn host_view_decodes_scalar_fields_and_sce() {
    let v = doc().host_view("synchronizoho").expect("host present");
    assert_eq!(v.user.as_deref(), Some("svc.tasks.pro"));
    assert_eq!(v.hostname.as_deref(), Some("192.168.10.220"));
    assert_eq!(v.port, Some(9022));
    assert_eq!(
        v.group.as_deref(),
        Some("53B0A32B-AD88-4368-9EB3-9568BEDCDF52")
    );
    assert_eq!(v.color.as_deref(), Some("Purple"));
}

#[test]
fn host_view_preserves_repeated_lowercase_forwards_verbatim() {
    let v = doc().host_view("dos2locos.example").expect("host present");
    let specs: Vec<&str> = v.forwards.iter().map(|f| f.spec.as_str()).collect();
    assert_eq!(specs, vec!["9999 localhost:9000", "8880 192.168.1.142:80"]);
    assert!(v.forwards.iter().all(|f| f.kind == PortForwardKind::Local));
    assert_eq!(v.icon.as_deref(), Some("home"));
}

#[test]
fn host_view_decodes_proxy_jump_and_bind_forward() {
    let v = doc().host_view("awsinternal").expect("host present");
    assert_eq!(v.proxy_jump.as_deref(), Some("awsbastion"));
    assert_eq!(v.forwards[0].spec, "0.0.0.0:9201 localhost:9200");
    assert_eq!(v.identity_file.as_deref(), Some("~/.ssh/internal.pem"));
}

#[test]
fn host_view_description_is_the_comment_above_host() {
    let v = doc().host_view("awsbastion").expect("host present");
    assert_eq!(v.description.as_deref(), Some("Servidor Web"));
}

// ---- upsert: surgical, non-destructive --------------------------------------

#[test]
fn upsert_existing_host_keeps_sce_and_description() {
    let mut d = doc();
    d.upsert_host(
        "synchronizoho",
        &CoreHostFields {
            port: Some(9023),
            user: Some("svc.tasks.pro".into()),
            hostname: Some("192.168.10.220".into()),
            ..Default::default()
        },
    );
    let out = d.to_config_string();
    assert!(out.contains("\tPort 9023"), "port updated");
    assert!(!out.contains("\tPort 9022"), "old port gone");
    assert!(out.contains("\t#SCEGroup 53B0A32B-AD88-4368-9EB3-9568BEDCDF52"));
    assert!(out.contains("\t#SCETags Purple"));
    assert!(
        out.contains("# synchronizoho PRO - LAN"),
        "description kept"
    );
}

#[test]
fn upsert_does_not_touch_unrecognized_directives() {
    let mut d = doc();
    d.upsert_host(
        "github.com",
        &CoreHostFields {
            hostname: Some("github.com".into()),
            user: Some("git".into()),
            identity_file: Some("~/.ssh/id_rsa".into()),
            ..Default::default()
        },
    );
    let out = d.to_config_string();
    assert!(out.contains("\tIdentitiesOnly yes"));
    assert!(out.contains("\tIdentityAgent none"));
    // The Include and Match blocks are untouched too.
    assert!(out.contains("Include ~/.ssh/work/*.conf"));
    assert!(out.contains("Match host *.internal"));
}

#[test]
fn upsert_clears_field_when_none() {
    let mut d = doc();
    d.upsert_host(
        "awsbastion",
        &CoreHostFields {
            hostname: Some("18.0.0.1".into()),
            user: Some("ec2-user".into()),
            identity_file: None, // clear it
            ..Default::default()
        },
    );
    let v = d.host_view("awsbastion").unwrap();
    assert_eq!(v.identity_file, None);
    assert!(!d.to_config_string().contains("bastion.pem"));
}

#[test]
fn upsert_creates_new_host_with_detected_indent() {
    let mut d = doc();
    d.upsert_host(
        "newbox",
        &CoreHostFields {
            hostname: Some("new.example.test".into()),
            user: Some("deploy".into()),
            port: Some(2222),
            ..Default::default()
        },
    );
    let out = d.to_config_string();
    assert!(out.contains("Host newbox\n\tHostName new.example.test\n\tUser deploy\n\tPort 2222"));
    assert_eq!(d.host_view("newbox").unwrap().port, Some(2222));
}

#[test]
fn upsert_inserts_ssh_directives_before_sce_metadata() {
    // dos2locos has SCE lines at the end; a newly set ProxyJump must land before
    // them so metadata stays trailing.
    let mut d = doc();
    d.upsert_host(
        "dos2locos.example",
        &CoreHostFields {
            hostname: Some("monitor.example.test".into()),
            user: Some("ubuntu".into()),
            port: Some(9922),
            proxy_jump: Some("awsbastion".into()),
            forwards: vec![ForwardEntry {
                kind: PortForwardKind::Local,
                spec: "9999 localhost:9000".into(),
            }],
            ..Default::default()
        },
    );
    let out = d.to_config_string();
    let pj = out.find("ProxyJump awsbastion").unwrap();
    let icon = out.find("#SCEIcon home").unwrap();
    assert!(pj < icon, "ProxyJump must precede the SCE metadata");
}

// ---- remove / rename --------------------------------------------------------

#[test]
fn remove_host_drops_the_block() {
    let mut d = doc();
    assert!(d.remove_host("synchronizoho"));
    assert!(d.host_view("synchronizoho").is_none());
    assert!(!d.to_config_string().contains("Host synchronizoho"));
}

#[test]
fn remove_host_returns_false_when_absent() {
    assert!(!doc().remove_host("nope"));
}

#[test]
fn rename_host_rewrites_the_host_line() {
    let mut d = doc();
    assert!(d.rename_host("awsbastion", "aws-bastion-01"));
    let out = d.to_config_string();
    assert!(out.contains("Host aws-bastion-01"));
    assert!(!out.contains("Host awsbastion\n"));
    assert!(d.host_view("aws-bastion-01").is_some());
}

// ---- group membership -------------------------------------------------------

#[test]
fn set_group_moves_host_between_groups() {
    let mut d = doc();
    assert!(d.set_group(
        "synchronizoho",
        Some("CD353C24-8FC7-4E7E-8E87-596749F78757")
    ));
    let v = d.host_view("synchronizoho").unwrap();
    assert_eq!(
        v.group.as_deref(),
        Some("CD353C24-8FC7-4E7E-8E87-596749F78757")
    );
}

#[test]
fn set_group_none_makes_host_ungrouped() {
    let mut d = doc();
    assert!(d.set_group("synchronizoho", None));
    assert_eq!(d.host_view("synchronizoho").unwrap().group, None);
    assert!(!d.to_config_string().contains("\t#SCEGroup 53B0A32B"));
}

#[test]
fn set_icon_and_color_add_then_update() {
    let mut d = doc();
    assert!(d.set_icon("github.com", Some("server")));
    assert!(d.set_color("github.com", Some("Blue")));
    let v = d.host_view("github.com").unwrap();
    assert_eq!(v.icon.as_deref(), Some("server"));
    assert_eq!(v.color.as_deref(), Some("Blue"));

    assert!(d.set_color("github.com", Some("Red")));
    assert_eq!(
        d.host_view("github.com").unwrap().color.as_deref(),
        Some("Red")
    );
    // Only one tag line, not two.
    assert_eq!(d.to_config_string().matches("#SCETags").count(), 2); // synchronizoho + github
}

#[test]
fn set_description_replaces_or_adds() {
    let mut d = doc();
    assert!(d.set_description("awsbastion", Some("Bastión AWS")));
    assert_eq!(
        d.host_view("awsbastion").unwrap().description.as_deref(),
        Some("Bastión AWS")
    );
    // github.com had no description; adding one creates the comment line.
    assert!(d.set_description("github.com", Some("Repos")));
    assert!(d.to_config_string().contains("# Repos\nHost github.com"));
}

// ---- group CRUD -------------------------------------------------------------

#[test]
fn create_group_appends_uppercase_uuid_marker() {
    let mut d = doc();
    let uuid = d.create_group("Nuevos");
    assert_eq!(uuid, uuid.to_uppercase());
    assert_eq!(uuid.len(), 36);
    assert!(
        d.groups()
            .iter()
            .any(|g| g.name == "Nuevos" && g.uuid == uuid)
    );
    assert!(
        d.to_config_string()
            .contains(&format!("#SCE_GROUP:{uuid}:::Nuevos"))
    );
}

#[test]
fn rename_group_updates_marker() {
    let mut d = doc();
    assert!(d.rename_group("53B0A32B-AD88-4368-9EB3-9568BEDCDF52", "Dvuelta SL"));
    assert!(d.to_config_string().contains(":::Dvuelta SL"));
    assert!(!doc_renamed_still_has_old(&d));
}

fn doc_renamed_still_has_old(d: &SshConfigDocument) -> bool {
    d.to_config_string().contains(":::Dvuelta\n")
}

#[test]
fn delete_group_removes_marker_and_orphans_hosts() {
    let mut d = doc();
    assert!(d.delete_group("53B0A32B-AD88-4368-9EB3-9568BEDCDF52"));
    let out = d.to_config_string();
    assert!(!out.contains("#SCE_GROUP:53B0A32B"));
    assert!(!out.contains("#SCEGroup 53B0A32B"));
    // The host itself survives, just ungrouped.
    assert!(d.host_view("synchronizoho").is_some());
    assert_eq!(d.host_view("synchronizoho").unwrap().group, None);
}

// ---- Own tests ---------------------------------------------------------------

use warp_ssh_manager::config_model::OutlineEntry;
use warp_ssh_manager::types::AuthType;

#[test]
fn whitespace_only_lines_and_crlf_are_kept() {
    for input in ["a\n  \nb", "Host a\r\n\tUser x\r\n", "  #SCE_GROUP:U:::N  \n", "\r\n\r"] {
        assert_eq!(SshConfigDocument::parse(input).to_config_string(), input);
    }
    let d = SshConfigDocument::parse("Host a\r\n\tUser x\r\n  #SCE_GROUP:U:::N  \n");
    assert_eq!(d.host_view("a").unwrap().user.as_deref(), Some("x"));
    assert_eq!(d.groups().len(), 1);
    assert_eq!(d.groups()[0].uuid, "U");
    assert_eq!(d.groups()[0].name, "N");
}

#[test]
fn upsert_into_empty_document_uses_default_indent() {
    let mut d = SshConfigDocument::parse("");
    d.upsert_host(
        "box",
        &CoreHostFields { hostname: Some("h".into()), port: Some(22), ..Default::default() },
    );
    assert_eq!(d.to_config_string(), "Host box\n    HostName h\n    Port 22");
    let v = d.host_view("box").unwrap();
    assert_eq!(v.patterns, vec!["box".to_string()]);
    assert_eq!(v.port, Some(22));
    assert_eq!(v.group, None);
}

#[test]
fn upsert_replaces_forwards_and_keeps_their_order() {
    let mut d = doc();
    let fwd = vec![
        ForwardEntry { kind: PortForwardKind::Remote, spec: "9000 localhost:3000".into() },
        ForwardEntry { kind: PortForwardKind::Dynamic, spec: "1080".into() },
    ];
    d.upsert_host(
        "dos2locos.example",
        &CoreHostFields { forwards: fwd.clone(), ..Default::default() },
    );
    let v = d.host_view("dos2locos.example").unwrap();
    assert_eq!(v.forwards, fwd);
    assert_eq!(v.hostname, None);
    assert_eq!(v.icon.as_deref(), Some("home"));
    let out = d.to_config_string();
    assert!(out.contains("\tRemoteForward 9000 localhost:3000\n\tDynamicForward 1080\n\t#SCEIcon home"));
    assert!(!out.contains("localforward"));
}

#[test]
fn host_view_finds_a_host_by_any_pattern() {
    let d = SshConfigDocument::parse("Host a b\n\tUser u\nHost b\n\tUser v\n");
    assert_eq!(d.host_view("b").unwrap().user.as_deref(), Some("u"));
    assert_eq!(d.host_aliases(), vec!["a", "b"]);
    assert!(d.host_view("c").is_none());
}

#[test]
fn remove_host_drops_every_block_with_the_alias() {
    let mut d = SshConfigDocument::parse("Host a b\n\tUser u\nHost b\n\tUser v\nHost c\n");
    assert!(d.remove_host("b"));
    assert!(d.host_view("b").is_none());
    assert_eq!(d.host_aliases(), vec!["c"]);
}

#[test]
fn rename_host_keeps_other_patterns_and_indent() {
    let mut d = SshConfigDocument::parse("  Host a b # note\n\tUser u\n");
    assert!(d.rename_host("b", "z"));
    assert_eq!(d.to_config_string(), "  Host a z\n\tUser u\n");
    assert!(!d.rename_host("missing", "q"));
}

#[test]
fn clearing_an_sce_value_drops_only_its_first_line() {
    let mut d = SshConfigDocument::parse("Host a\n\t#SCETags Red\n\t#SCETags Blue\n");
    assert!(d.set_color("a", None));
    assert_eq!(d.host_view("a").unwrap().color.as_deref(), Some("Blue"));
    assert!(!d.set_icon("nope", Some("x")));
}

#[test]
fn clearing_a_description_drops_the_last_leading_comment() {
    let mut d = doc();
    assert!(d.set_description("awsinternal", None));
    assert_eq!(d.host_view("awsinternal").unwrap().description.as_deref(), Some("Servidor interno"));
    assert!(d.set_description("awsinternal", Some("  Internal  ")));
    assert_eq!(d.host_view("awsinternal").unwrap().description.as_deref(), Some("Internal"));
}

#[test]
fn outline_lists_groups_and_hosts_in_order() {
    let d = SshConfigDocument::parse("Host a\n#SCE_GROUP:G:::Grp\nHost b\n\t#SCEGroup G\n");
    assert_eq!(
        d.outline(),
        vec![
            OutlineEntry::Host { alias: "a".into(), group: None },
            OutlineEntry::Group { uuid: "G".into(), name: "Grp".into() },
            OutlineEntry::Host { alias: "b".into(), group: Some("G".into()) },
        ]
    );
}

#[test]
fn created_group_uuid_is_uppercase_hyphenated_hex() {
    let mut d = SshConfigDocument::parse("Host a\n");
    let uuid = d.create_group("G");
    assert_eq!(uuid.len(), 36);
    for (i, c) in uuid.chars().enumerate() {
        if [8, 13, 18, 23].contains(&i) {
            assert_eq!(c, '-');
        } else {
            assert!(c.is_ascii_digit() || ('A'..='F').contains(&c), "{uuid}");
        }
    }
    assert_eq!(d.to_config_string(), format!("Host a\n\n#SCE_GROUP:{uuid}:::G\n\n"));
}

#[test]
fn rename_and_delete_of_an_unknown_group_change_nothing() {
    let mut d = doc();
    assert!(!d.rename_group("NOPE", "x"));
    assert!(!d.delete_group("NOPE"));
    assert_eq!(d.to_config_string(), FIXTURE);
}

#[test]
fn to_server_info_maps_the_host() {
    let d = doc();
    let info = d.host_view("awsinternal").unwrap().to_server_info("awsinternal");
    assert_eq!(info.node_id, "awsinternal");
    assert_eq!(info.host, "10.0.0.20");
    assert_eq!(info.port, 22);
    assert_eq!(info.username, "ec2-user");
    assert_eq!(info.auth_type, AuthType::Key);
    assert_eq!(info.key_path.as_deref(), Some("~/.ssh/internal.pem"));
    assert_eq!(info.notes.as_deref(), Some("ProxyJump awsbastion"));
    assert_eq!(info.advanced.port_forwards.len(), 1);
    assert_eq!(info.advanced.port_forwards[0].bind_host, "0.0.0.0");
    assert_eq!(info.advanced.port_forwards[0].target_port, Some(9200));

    let bare = SshConfigDocument::parse("Host lone\n\tPort 2200\n");
    let info = bare.host_view("lone").unwrap().to_server_info("lone");
    assert_eq!(info.host, "lone");
    assert_eq!(info.port, 2200);
    assert_eq!(info.username, "");
    assert_eq!(info.auth_type, AuthType::Password);
    assert_eq!(info.key_path, None);
}

#[test]
fn upsert_keeps_comments_inside_the_block() {
    let mut d = SshConfigDocument::parse("# above\nHost a\n\tUser x\n\t# keep me\n\tIdentitiesOnly yes\n");
    d.upsert_host("a", &CoreHostFields { user: Some("y".into()), ..Default::default() });
    assert_eq!(
        d.to_config_string(),
        "# above\nHost a\n\tUser y\n\t# keep me\n\tIdentitiesOnly yes\n"
    );
}

#[test]
fn second_round_trip_changes_nothing() {
    for input in ["a\r\r\nb", "  \n#SCE_GROUP:X:::Y  \nHost q\n", "Host a\n\tUser x\n\n\n"] {
        let once = SshConfigDocument::parse(input).to_config_string();
        let twice = SshConfigDocument::parse(&once).to_config_string();
        assert_eq!(once, input);
        assert_eq!(once, twice);
    }
}

#[test]
fn missing_file_gives_empty_document() {
    let d = SshConfigDocument::document_or_empty(None);
    assert_eq!(d.to_config_string(), "");
    assert!(d.host_aliases().is_empty());
    let d = SshConfigDocument::document_or_empty(Some("Host a\n".to_string()));
    assert_eq!(d.host_aliases(), vec!["a".to_string()]);
    assert_eq!(d.to_config_string(), "Host a\n");
}

#[test]
fn created_group_uuid_is_version_4() {
    let mut d = SshConfigDocument::parse("");
    let id = d.create_group("G");
    let c: Vec<char> = id.chars().collect();
    assert_eq!(c[14], '4');
    assert!(matches!(c[19], '8' | '9' | 'A' | 'B'));
}

const TWO_GROUPS: &str = "#SCE_GROUP:G1:::One\n\nHost a\n\t#SCEGroup G1\n\tUser u\n\n#SCE_GROUP:G2:::Two\n\nHost b c\n\t#SCEGroup G2\n";

fn group_pairs(d: &SshConfigDocument) -> Vec<(String, String)> {
    d.groups().into_iter().map(|g| (g.uuid, g.name)).collect()
}

#[test]
fn rename_group_renames_only_that_group() {
    let mut d = SshConfigDocument::parse(TWO_GROUPS);
    let aliases = d.host_aliases();
    assert!(d.rename_group("G2", "Renamed"));
    assert_eq!(
        group_pairs(&d),
        vec![("G1".to_string(), "One".to_string()), ("G2".to_string(), "Renamed".to_string())]
    );
    assert_eq!(d.host_aliases(), aliases);
    assert_eq!(d.host_view("b").unwrap().group.as_deref(), Some("G2"));
    let before = d.to_config_string();
    assert!(!d.rename_group("G9", "X"));
    assert_eq!(d.to_config_string(), before);
}

#[test]
fn delete_group_keeps_the_other_groups() {
    let mut d = SshConfigDocument::parse(TWO_GROUPS);
    assert!(d.delete_group("G1"));
    assert_eq!(group_pairs(&d), vec![("G2".to_string(), "Two".to_string())]);
    assert_eq!(d.host_aliases(), vec!["a".to_string(), "b".to_string()]);
    assert_eq!(d.host_view("a").unwrap().group, None);
}

#[test]
fn create_group_writes_its_marker_line_and_keeps_hosts() {
    let mut d = SshConfigDocument::parse(TWO_GROUPS);
    let id = d.create_group("Three");
    assert!(d.to_config_string().lines().any(|l| l == format!("#SCE_GROUP:{id}:::Three")));
    assert_eq!(d.host_aliases(), vec!["a".to_string(), "b".to_string()]);
}

#[test]
fn upsert_appends_alias_only_for_a_new_host() {
    let mut d = SshConfigDocument::parse(TWO_GROUPS);
    d.upsert_host("c", &CoreHostFields { user: Some("x".into()), ..Default::default() });
    assert_eq!(d.host_aliases(), vec!["a".to_string(), "b".to_string()]);
    d.upsert_host("new", &CoreHostFields::default());
    assert_eq!(d.host_aliases(), vec!["a".to_string(), "b".to_string(), "new".to_string()]);
}

#[test]
fn rename_host_touches_only_its_host_line() {
    let mut d = SshConfigDocument::parse(TWO_GROUPS);
    assert!(d.rename_host("c", "d"));
    assert_eq!(d.to_config_string(), TWO_GROUPS.replace("Host b c", "Host b d"));
    let before = d.to_config_string();
    assert!(!d.rename_host("zz", "y"));
    assert_eq!(d.to_config_string(), before);
}

#[test]
fn outline_lists_groups_and_aliases() {
    let d = SshConfigDocument::parse(TWO_GROUPS);
    let o = d.outline();
    let gs: Vec<(String, String)> = o
        .iter()
        .filter_map(|e| match e {
            OutlineEntry::Group { uuid, name } => Some((uuid.clone(), name.clone())),
            _ => None,
        })
        .collect();
    let hs: Vec<String> = o
        .iter()
        .filter_map(|e| match e {
            OutlineEntry::Host { alias, .. } => Some(alias.clone()),
            _ => None,
        })
        .collect();
    assert_eq!(gs, group_pairs(&d));
    assert_eq!(hs, d.host_aliases());
}
