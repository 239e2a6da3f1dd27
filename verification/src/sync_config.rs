//! One-way `~/.ssh/config` → node synchronisation, with no IO: given a
//! node's current [`SshServerInfo`] (carrying its import provenance) and the
//! candidates parsed from the config file, compute what re-syncing the node
//! would change, so that a confirmation diff can be shown before anything is
//! applied.
//!
//! - Only nodes with provenance are considered; manually created nodes give
//!   `None`.
//! - Config → node only; the config file is never written.
//! - Non-destructive: a field is only proposed for update when the config
//!   block provides a value for it.
//! - Drift is reported, not applied: when the provenance alias is gone from
//!   the config the node is flagged [`NodeSyncStatus::Drifted`] and left as
//!   it is.
use vstd::prelude::*;
use crate::ssh_config_parser::{CandidateModel, SshConfigCandidate};
use crate::text::{chars_eq, chars_of, dec_str, string_of, u16_to_chars};
use crate::types::{AuthType, ServerModel, SshServerInfo};

verus! {

/// Which node field a [`FieldChange`] refers to.
#[derive(Clone, Copy, Debug, PartialEq, Eq, Structural)]
pub enum SyncField {
    Port,
    User,
    IdentityFile,
}

pub open spec fn label_of(f: SyncField) -> Seq<char> {
    match f {
        SyncField::Port => seq!['p', 'o', 'r', 't'],
        SyncField::User => seq!['u', 's', 'e', 'r'],
        SyncField::IdentityFile => seq!['i', 'd', 'e', 'n', 't', 'i', 't', 'y'],
    }
}

impl SyncField {
    /// Stable lowercase label for display / i18n lookup.
    pub fn label(&self) -> (r: &'static str)
        ensures
            r@ == label_of(*self),
    {
        proof {
            reveal_strlit("port");
            reveal_strlit("user");
            reveal_strlit("identity");
        }
        match self {
            SyncField::Port => "port",
            SyncField::User => "user",
            SyncField::IdentityFile => "identity",
        }
    }
}

/// A single proposed change to a node field. `old`/`new` are display
/// strings; an absent value is the empty string.
#[derive(Clone, Debug, PartialEq, Eq)]
pub struct FieldChange {
    pub field: SyncField,
    pub old: String,
    pub new: String,
}

impl View for FieldChange {
    type V = (SyncField, Seq<char>, Seq<char>);

    open spec fn view(&self) -> (SyncField, Seq<char>, Seq<char>) {
        (self.field, self.old@, self.new@)
    }
}

/// Outcome of comparing one imported node against the current config.
#[derive(Clone, Debug, PartialEq, Eq)]
pub enum NodeSyncStatus {
    /// The config still matches the node: nothing to do.
    UpToDate,
    /// The provenance alias is no longer present in the config. The node is
    /// left untouched; the UI surfaces this as a warning.
    Drifted { alias: String },
    /// The config provides values that differ from the node. `changes` is
    /// the per-field diff for display; `new_info` is the updated node ready
    /// to persist on confirmation.
    Updated { changes: Vec<FieldChange>, new_info: SshServerInfo },
}

pub ghost enum SyncModel {
    UpToDate,
    Drifted(Seq<char>),
    Updated(Seq<(SyncField, Seq<char>, Seq<char>)>, ServerModel),
}

impl View for NodeSyncStatus {
    type V = SyncModel;

    open spec fn view(&self) -> SyncModel {
        match self {
            NodeSyncStatus::UpToDate => SyncModel::UpToDate,
            NodeSyncStatus::Drifted { alias } => SyncModel::Drifted(alias@),
            NodeSyncStatus::Updated { changes, new_info } => SyncModel::Updated(
                changes@.map_values(|c: FieldChange| c@),
                new_info@,
            ),
        }
    }
}

/// Index of the first candidate with this alias.
pub open spec fn candidate_index(cs: Seq<CandidateModel>, alias: Seq<char>) -> Option<int>
    decreases cs.len(),
{
    if cs.len() == 0 {
        None
    } else if cs[0].alias == alias {
        Some(0)
    } else {
        match candidate_index(cs.drop_first(), alias) {
            Some(k) => Some(k + 1),
            None => None,
        }
    }
}

/// The config's port, when it declares one that differs from the node's.
pub open spec fn port_update(info: ServerModel, c: CandidateModel) -> Option<u16> {
    match c.port {
        Some(p) => if p != info.port {
            Some(p)
        } else {
            None
        },
        None => None,
    }
}

/// The config's user, when it declares a non-empty one that differs.
pub open spec fn user_update(info: ServerModel, c: CandidateModel) -> Option<Seq<char>> {
    match c.user {
        Some(u) => if u.len() > 0 && u != info.username {
            Some(u)
        } else {
            None
        },
        None => None,
    }
}

/// The config's identity file, when it declares one that differs.
pub open spec fn key_update(info: ServerModel, c: CandidateModel) -> Option<Seq<char>> {
    match c.identity_file {
        Some(k) => if Some(k) != info.key_path {
            Some(k)
        } else {
            None
        },
        None => None,
    }
}

pub open spec fn or_empty(o: Option<Seq<char>>) -> Seq<char> {
    match o {
        Some(s) => s,
        None => Seq::<char>::empty(),
    }
}

/// The per-field diff, in the order port, user, identity file.
pub open spec fn sync_changes(info: ServerModel, c: CandidateModel) -> Seq<
    (SyncField, Seq<char>, Seq<char>),
> {
    (match port_update(info, c) {
        Some(p) => seq![(SyncField::Port, dec_str(info.port as nat), dec_str(p as nat))],
        None => seq![],
    }) + (match user_update(info, c) {
        Some(u) => seq![(SyncField::User, info.username, u)],
        None => seq![],
    }) + (match key_update(info, c) {
        Some(k) => seq![(SyncField::IdentityFile, or_empty(info.key_path), k)],
        None => seq![],
    })
}

/// The node with the config's values applied. A new identity file turns
/// password authentication into key authentication; other kinds stay.
pub open spec fn synced_info(info: ServerModel, c: CandidateModel) -> ServerModel {
    ServerModel {
        port: match port_update(info, c) {
            Some(p) => p,
            None => info.port,
        },
        username: match user_update(info, c) {
            Some(u) => u,
            None => info.username,
        },
        key_path: match key_update(info, c) {
            Some(k) => Some(k),
            None => info.key_path,
        },
        auth_type: if key_update(info, c) is Some && info.auth_type == AuthType::Password {
            AuthType::Key
        } else {
            info.auth_type
        },
        ..info
    }
}

/// The sync outcome for a node: `None` without provenance, `Drifted` when
/// the alias is gone, `UpToDate` when nothing differs, else the diff and
/// the updated node.
pub open spec fn node_sync(info: ServerModel, cs: Seq<CandidateModel>) -> Option<SyncModel> {
    match info.advanced.imported_from {
        None => None,
        Some((_, alias)) => match candidate_index(cs, alias) {
            None => Some(SyncModel::Drifted(alias)),
            Some(i) => if sync_changes(info, cs[i]).len() == 0 {
                Some(SyncModel::UpToDate)
            } else {
                Some(SyncModel::Updated(sync_changes(info, cs[i]), synced_info(info, cs[i])))
            },
        },
    }
}

proof fn lemma_candidate_index_at(cs: Seq<CandidateModel>, alias: Seq<char>, k: int)
    requires
        0 <= k <= cs.len(),
        forall|j: int| 0 <= j < k ==> (#[trigger] cs[j]).alias != alias,
        k < cs.len() ==> cs[k].alias == alias,
    ensures
        candidate_index(cs, alias) == (if k < cs.len() {
            Some(k)
        } else {
            None::<int>
        }),
    decreases k,
{
    if k > 0 {
        assert forall|j: int| 0 <= j < k - 1 implies (#[trigger] cs.drop_first()[j]).alias != alias by {
            assert(cs.drop_first()[j] == cs[j + 1]);
        }
        if k < cs.len() {
            assert(cs.drop_first()[k - 1] == cs[k]);
        }
        lemma_candidate_index_at(cs.drop_first(), alias, k - 1);
    }
}

/// Index of the first candidate with this alias.
fn find_candidate(candidates: &[SshConfigCandidate], alias: &Vec<char>) -> (r: Option<usize>)
    ensures
        match r {
            Some(k) => k < candidates.len() && candidate_index(
                candidates@.map_values(|c: SshConfigCandidate| c@),
                alias@,
            ) == Some(k as int),
            None => candidate_index(candidates@.map_values(|c: SshConfigCandidate| c@), alias@)
                is None,
        },
{
    let ghost cs = candidates@.map_values(|c: SshConfigCandidate| c@);
    let mut i: usize = 0;
    while i < candidates.len()
        invariant
            i <= candidates.len(),
            cs == candidates@.map_values(|c: SshConfigCandidate| c@),
            forall|j: int| 0 <= j < i ==> (#[trigger] cs[j]).alias != alias@,
        decreases candidates.len() - i,
    {
        assert(cs[i as int] == candidates@[i as int]@);
        if chars_eq(&chars_of(candidates[i].alias.as_str()), alias) {
            proof {
                lemma_candidate_index_at(cs, alias@, i as int);
            }
            return Some(i);
        }
        i += 1;
    }
    proof {
        lemma_candidate_index_at(cs, alias@, i as int);
    }
    None
}

fn u16_string(n: u16) -> (r: String)
    ensures
        r@ == dec_str(n as nat),
{
    string_of(&u16_to_chars(n))
}

/// Compute the sync outcome for a single node. `None` when the node was not
/// imported from `~/.ssh/config` (no provenance), so callers can skip it.
pub fn compute_node_sync(info: &SshServerInfo, candidates: &[SshConfigCandidate]) -> (r: Option<
    NodeSyncStatus,
>)
    ensures
        match (r, node_sync(info@, candidates@.map_values(|c: SshConfigCandidate| c@))) {
            (Some(s), Some(m)) => s@ == m,
            (None, None) => true,
            _ => false,
        },
{
    let ghost cs = candidates@.map_values(|c: SshConfigCandidate| c@);
    let provenance = match &info.advanced.imported_from {
        Some(p) => p,
        None => return None,
    };
    let alias = chars_of(provenance.alias.as_str());
    let k = match find_candidate(candidates, &alias) {
        Some(k) => k,
        None => {
            return Some(NodeSyncStatus::Drifted { alias: provenance.alias.clone() });
        },
    };
    let c = &candidates[k];
    assert(cs[k as int] == c@);
    let mut changes: Vec<FieldChange> = Vec::new();
    let mut new_info = info.duplicate();
    let ghost old_info = info@;
    let ghost cm = c@;
    // Port: only when the config block declares one.
    if let Some(port) = c.port {
        if port != info.port {
            changes.push(FieldChange { field: SyncField::Port, old: u16_string(info.port), new: u16_string(port) });
            new_info.port = port;
        }
    }
    let ghost after_port = changes@.map_values(|c: FieldChange| c@);
    // User: only when the config block declares a non-empty one.
    if let Some(user) = &c.user {
        let u = chars_of(user.as_str());
        if u.len() > 0 && !chars_eq(&u, &chars_of(info.username.as_str())) {
            changes.push(FieldChange { field: SyncField::User, old: info.username.clone(), new: user.clone() });
            new_info.username = user.clone();
        }
    }
    let ghost after_user = changes@.map_values(|c: FieldChange| c@);
    // IdentityFile: only when the config block declares one. A new key
    // turns password authentication into key authentication.
    if let Some(identity) = &c.identity_file {
        let same = match &info.key_path {
            Some(kp) => chars_eq(&chars_of(identity.as_str()), &chars_of(kp.as_str())),
            None => false,
        };
        if !same {
            let old = match &info.key_path {
                Some(kp) => kp.clone(),
                None => String::new(),
            };
            changes.push(FieldChange { field: SyncField::IdentityFile, old, new: identity.clone() });
            new_info.key_path = Some(identity.clone());
            if info.auth_type == AuthType::Password {
                new_info.auth_type = AuthType::Key;
            }
        }
    }
    proof {
        let ch = sync_changes(old_info, cm);
        assert(changes@.map_values(|c: FieldChange| c@) =~= ch);
        assert(new_info@ == synced_info(old_info, cm));
    }
    if changes.len() == 0 {
        Some(NodeSyncStatus::UpToDate)
    } else {
        Some(NodeSyncStatus::Updated { changes, new_info })
    }
}

/// Re-syncing a node after applying its update finds nothing more to do.
pub proof fn sync_update_is_final(info: ServerModel, cs: Seq<CandidateModel>)
    ensures
        node_sync(info, cs) matches Some(SyncModel::Updated(_, n)) ==> node_sync(n, cs) == Some(
            SyncModel::UpToDate,
        ),
{
    if let Some(SyncModel::Updated(_, n)) = node_sync(info, cs) {
        let alias = (info.advanced.imported_from->0).1;
        let i = candidate_index(cs, alias)->0;
        assert(sync_changes(n, cs[i]) =~= Seq::<(SyncField, Seq<char>, Seq<char>)>::empty());
    }
}

/// A sync never blanks or invents a value: the updated node differs from
/// the old one only in port, user, key path and auth type, and each of
/// those only changes when the config block declares a value for it.
pub proof fn sync_is_non_destructive(info: ServerModel, cs: Seq<CandidateModel>)
    ensures
        node_sync(info, cs) matches Some(SyncModel::Updated(_, n)) ==> {
            let c = cs[candidate_index(cs, (info.advanced.imported_from->0).1)->0];
            &&& n == (ServerModel {
                port: n.port,
                username: n.username,
                key_path: n.key_path,
                auth_type: n.auth_type,
                ..info
            })
            &&& (c.port is None ==> n.port == info.port)
            &&& (c.user is None ==> n.username == info.username)
            &&& (c.identity_file is None ==> n.key_path == info.key_path && n.auth_type
                == info.auth_type)
            &&& n.username.len() > 0 || n.username == info.username
        },
{
}

/// A port the config declares is proposed whenever it differs from the
/// node's, whatever its value: the outcome is an update whose changes hold
/// the port change from the node's port to the declared one, and whose
/// updated node has the declared port.
pub proof fn declared_port_change_is_proposed(info: ServerModel, cs: Seq<CandidateModel>, i: int, p: u16)
    requires
        info.advanced.imported_from is Some,
        0 <= i < cs.len(),
        cs[i].alias == (info.advanced.imported_from->0).1,
        forall|j: int| 0 <= j < i ==> (#[trigger] cs[j]).alias != (info.advanced.imported_from->0).1,
        cs[i].port == Some(p),
        p != info.port,
    ensures
        node_sync(info, cs) matches Some(SyncModel::Updated(changes, new_info)) && changes.contains(
            (SyncField::Port, dec_str(info.port as nat), dec_str(p as nat)),
        ) && new_info.port == p,
{
    let alias = (info.advanced.imported_from->0).1;
    lemma_candidate_index_at(cs, alias, i);
    let ch = sync_changes(info, cs[i]);
    assert(ch[0] == (SyncField::Port, dec_str(info.port as nat), dec_str(p as nat)));
}

/// A non-empty user the config declares is proposed whenever it differs
/// from the node's: the outcome is an update whose changes hold that user
/// change and whose updated node has the declared user.
pub proof fn declared_user_change_is_proposed(info: ServerModel, cs: Seq<CandidateModel>, i: int, u: Seq<char>)
    requires
        info.advanced.imported_from is Some,
        0 <= i < cs.len(),
        cs[i].alias == (info.advanced.imported_from->0).1,
        forall|j: int| 0 <= j < i ==> (#[trigger] cs[j]).alias != (info.advanced.imported_from->0).1,
        cs[i].user == Some(u),
        u.len() > 0,
        u != info.username,
    ensures
        node_sync(info, cs) matches Some(SyncModel::Updated(changes, new_info)) && changes.contains(
            (SyncField::User, info.username, u),
        ) && new_info.username == u,
{
    let alias = (info.advanced.imported_from->0).1;
    lemma_candidate_index_at(cs, alias, i);
    let ch = sync_changes(info, cs[i]);
    let k = if port_update(info, cs[i]) is Some { 1int } else { 0int };
    assert(ch[k] == (SyncField::User, info.username, u));
}

/// An identity file the config declares is proposed whenever it differs
/// from the node's key path: the outcome is an update whose changes hold
/// that change and whose updated node uses the declared file.
pub proof fn declared_key_change_is_proposed(info: ServerModel, cs: Seq<CandidateModel>, i: int, key: Seq<char>)
    requires
        info.advanced.imported_from is Some,
        0 <= i < cs.len(),
        cs[i].alias == (info.advanced.imported_from->0).1,
        forall|j: int| 0 <= j < i ==> (#[trigger] cs[j]).alias != (info.advanced.imported_from->0).1,
        cs[i].identity_file == Some(key),
        info.key_path != Some(key),
    ensures
        node_sync(info, cs) matches Some(SyncModel::Updated(changes, new_info)) && changes.contains(
            (SyncField::IdentityFile, or_empty(info.key_path), key),
        ) && new_info.key_path == Some(key),
{
    let alias = (info.advanced.imported_from->0).1;
    lemma_candidate_index_at(cs, alias, i);
    let ch = sync_changes(info, cs[i]);
    let k = ch.len() - 1;
    assert(ch[k] == (SyncField::IdentityFile, or_empty(info.key_path), key));
}

} // verus!
