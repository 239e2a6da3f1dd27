use warp_ssh_manager::config_model::SshConfigDocument;
use warp_ssh_manager::config_tree::{build_config_tree, SshConfigTree};
use warp_ssh_manager::types::NodeKind;

const FIXTURE: &str = "Host github.com
\tUser git
\tHostName github.com

#SCE_GROUP:53B0A32B-AD88-4368-9EB3-9568BEDCDF52:::Dvuelta

Host synchronizoho
\tUser svc
\tHostName 192.168.10.220
\t#SCEGroup 53B0A32B-AD88-4368-9EB3-9568BEDCDF52
\t#SCETags Purple

Host synchronizoho-wan
\tUser svc
\tHostName 188.86.24.163
\t#SCEGroup 53B0A32B-AD88-4368-9EB3-9568BEDCDF52

#SCE_GROUP:CD353C24-8FC7-4E7E-8E87-596749F78757:::Personal

Host raspi
\tUser ubuntu
\tHostName 192.168.0.14
\t#SCEIcon ubuntu
\t#SCEGroup CD353C24-8FC7-4E7E-8E87-596749F78757
";

fn tree(collapsed: &[&str]) -> SshConfigTree {
    let doc = SshConfigDocument::parse(FIXTURE);
    let set: Vec<String> = collapsed.iter().map(|s| s.to_string()).collect();
    build_config_tree(&doc, &set)
}

fn ids(t: &SshConfigTree) -> Vec<&str> {
    t.nodes.iter().map(|n| n.id.as_str()).collect()
}

#[test]
fn ungrouped_host_sits_at_root_in_document_order() {
    let t = tree(&[]);
    assert_eq!(t.nodes[0].id, "github.com");
    assert_eq!(t.nodes[0].kind, NodeKind::Server);
    assert_eq!(t.nodes[0].parent_id, None);
}

#[test]
fn groups_become_folders_with_their_hosts_as_children() {
    let t = tree(&[]);
    assert_eq!(
        ids(&t),
        vec![
            "github.com",
            "53B0A32B-AD88-4368-9EB3-9568BEDCDF52",
            "synchronizoho",
            "synchronizoho-wan",
            "CD353C24-8FC7-4E7E-8E87-596749F78757",
            "raspi",
        ]
    );
    let dvuelta = &t.nodes[1];
    assert_eq!(dvuelta.kind, NodeKind::Folder);
    assert_eq!(dvuelta.name, "Dvuelta");
    assert_eq!(t.nodes[2].parent_id.as_deref(), Some("53B0A32B-AD88-4368-9EB3-9568BEDCDF52"));
    assert_eq!(t.nodes[3].parent_id.as_deref(), Some("53B0A32B-AD88-4368-9EB3-9568BEDCDF52"));
}

#[test]
fn host_meta_carries_icon_and_color() {
    let t = tree(&[]);
    assert_eq!(t.host("synchronizoho").unwrap().color.as_deref(), Some("Purple"));
    assert_eq!(t.host("raspi").unwrap().icon.as_deref(), Some("ubuntu"));
    assert_eq!(t.host("github.com").unwrap().hostname.as_deref(), Some("github.com"));
}

#[test]
fn collapsed_set_marks_folder_collapsed() {
    let t = tree(&["53B0A32B-AD88-4368-9EB3-9568BEDCDF52"]);
    let dvuelta = t.nodes.iter().find(|n| n.id == "53B0A32B-AD88-4368-9EB3-9568BEDCDF52").unwrap();
    assert!(dvuelta.is_collapsed);
    let personal = t.nodes.iter().find(|n| n.id == "CD353C24-8FC7-4E7E-8E87-596749F78757").unwrap();
    assert!(!personal.is_collapsed);
}

#[test]
fn dangling_group_reference_falls_back_to_root() {
    let doc = SshConfigDocument::parse(
        "Host orphan\n\tUser x\n\t#SCEGroup 00000000-0000-0000-0000-000000000000\n",
    );
    let t = build_config_tree(&doc, &[]);
    assert_eq!(t.nodes.len(), 1);
    assert_eq!(t.nodes[0].id, "orphan");
    assert_eq!(t.nodes[0].parent_id, None);
}

#[test]
fn empty_document_yields_no_nodes() {
    let doc = SshConfigDocument::parse("");
    let t = build_config_tree(&doc, &[]);
    assert!(t.nodes.is_empty());
    assert!(t.hosts.is_empty());
}

#[test]
fn empty_group_has_no_children() {
    let doc = SshConfigDocument::parse("#SCE_GROUP:AAAA:::Empty\n");
    let t = build_config_tree(&doc, &[]);
    assert_eq!(t.nodes.len(), 1);
    assert_eq!(t.nodes[0].kind, NodeKind::Folder);
    assert_eq!(t.nodes[0].name, "Empty");
}

// ---- Own tests ---------------------------------------------------------------

#[test]
fn sort_order_is_the_display_position() {
    let t = tree(&[]);
    for (i, n) in t.nodes.iter().enumerate() {
        assert_eq!(n.sort_order, i as i32);
    }
    assert_eq!(t.hosts.len(), 4);
    assert!(t.host("53B0A32B-AD88-4368-9EB3-9568BEDCDF52").is_none());
}

#[test]
fn hosts_listed_before_their_group_marker_still_join_it() {
    let doc = SshConfigDocument::parse("Host early\n\t#SCEGroup G\n#SCE_GROUP:G:::Late\n");
    let t = build_config_tree(&doc, &[]);
    assert_eq!(ids(&t), vec!["G", "early"]);
    assert_eq!(t.nodes[1].parent_id.as_deref(), Some("G"));
}

#[test]
fn repeated_alias_has_one_host_entry() {
    let doc = SshConfigDocument::parse("Host a\n\tUser first\n\nHost a\n\tUser second\n");
    let t = build_config_tree(&doc, &[]);
    assert_eq!(t.nodes.len(), 2);
    assert_eq!(t.hosts.len(), 1);
    assert_eq!(t.hosts[0].0, "a");
    assert_eq!(t.host("a").unwrap().user.as_deref(), Some("first"));
}

#[test]
fn every_node_has_the_same_timestamps() {
    let doc = SshConfigDocument::parse(FIXTURE);
    let t = build_config_tree(&doc, &[]);
    let first = t.nodes[0].created_at;
    assert_eq!(first, chrono::DateTime::UNIX_EPOCH.naive_utc());
    for n in &t.nodes {
        assert_eq!(n.created_at, first);
        assert_eq!(n.updated_at, first);
    }
}

#[test]
fn servers_in_a_folder_follow_it() {
    let doc = SshConfigDocument::parse(FIXTURE);
    let t = build_config_tree(&doc, &[]);
    for (m, n) in t.nodes.iter().enumerate() {
        assert_eq!(n.sort_order, m as i32);
        if let Some(p) = &n.parent_id {
            assert!(t.nodes[..m].iter().any(|f| f.kind == NodeKind::Folder && &f.id == p));
        }
    }
}

#[test]
fn roots_and_children_keep_document_order() {
    let doc = SshConfigDocument::parse(
        "Host r1\n\n#SCE_GROUP:G:::Grp\n\nHost m1\n\t#SCEGroup G\n\nHost r2\n\nHost m2\n\t#SCEGroup G\n",
    );
    let t = build_config_tree(&doc, &["G".to_string()]);
    let roots: Vec<&str> = t.nodes.iter().filter(|n| n.parent_id.is_none()).map(|n| n.id.as_str()).collect();
    assert_eq!(roots, vec!["r1", "G", "r2"]);
    let kids: Vec<&str> = t
        .nodes
        .iter()
        .filter(|n| n.parent_id.as_deref() == Some("G"))
        .map(|n| n.id.as_str())
        .collect();
    assert_eq!(kids, vec!["m1", "m2"]);
    let folder = t.nodes.iter().find(|n| n.kind == NodeKind::Folder).unwrap();
    assert!(folder.is_collapsed);
    assert_eq!(folder.name, "Grp");
}
