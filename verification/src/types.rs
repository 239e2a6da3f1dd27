//! Plain value types of the SSH manager: node/auth kinds with their database
//! spellings, port forwards with their `ssh` CLI and `~/.ssh/config`
//! renderings, and the per-server connection configuration.
use vstd::prelude::*;
use crate::text::{
    chars_eq, chars_of, dec_str, extend, is_ws, last_index_of, lemma_dec_str, lemma_last_index_of_at, lemma_map_push, lemma_map_take_succ,
    lemma_parse_dec_str, lemma_words_pair, lemma_words_single, parse_u16, parse_u16_chars, rfind_char,
    slice_of, split_words, string_of, u16_to_chars, words,
};

verus! {

/// A point in time as stored with nodes and servers; carried through
/// unchanged, never inspected.
#[verifier::external_type_specification]
#[verifier::external_body]
pub struct ExNaiveDateTime(chrono::NaiveDateTime);

/// `NaiveDateTime::clone`: the type derives `Copy` and `Clone`, so a clone is
/// the same value.
pub assume_specification[ <chrono::NaiveDateTime as Clone>::clone ](
    d: &chrono::NaiveDateTime,
) -> (r: chrono::NaiveDateTime)
    ensures
        r == *d,
;

/// Connection status — used only in the UI layer for display; not persisted.
#[derive(Clone, Copy, Debug, PartialEq, Eq, Structural)]
pub enum ConnectionStatus {
    Unknown,
    Online,
    Offline,
}

#[derive(Clone, Copy, Debug, PartialEq, Eq, Structural)]
pub enum NodeKind {
    Folder,
    Server,
}

pub open spec fn spell_folder() -> Seq<char> {
    seq!['f', 'o', 'l', 'd', 'e', 'r']
}

pub open spec fn spell_server() -> Seq<char> {
    seq!['s', 'e', 'r', 'v', 'e', 'r']
}

pub open spec fn spell_password() -> Seq<char> {
    seq!['p', 'a', 's', 's', 'w', 'o', 'r', 'd']
}

pub open spec fn spell_key() -> Seq<char> {
    seq!['k', 'e', 'y']
}

pub open spec fn spell_onekey() -> Seq<char> {
    seq!['o', 'n', 'e', 'k', 'e', 'y']
}

impl NodeKind {
    /// The database spelling of a node kind.
    pub open spec fn db_spelling(self) -> Seq<char> {
        match self {
            NodeKind::Folder => spell_folder(),
            NodeKind::Server => spell_server(),
        }
    }

    /// The node kind a database spelling denotes.
    pub open spec fn from_spelling(s: Seq<char>) -> Option<NodeKind> {
        if s == spell_folder() {
            Some(NodeKind::Folder)
        } else if s == spell_server() {
            Some(NodeKind::Server)
        } else {
            None
        }
    }

    pub fn as_db_str(&self) -> (r: &'static str)
        ensures
            r@ == self.db_spelling(),
    {
        proof {
            reveal_strlit("folder");
            reveal_strlit("server");
        }
        match self {
            NodeKind::Folder => "folder",
            NodeKind::Server => "server",
        }
    }

    pub fn parse(s: &str) -> (r: Option<Self>)
        ensures
            r == NodeKind::from_spelling(s@),
    {
        let c = chars_of(s);
        if chars_eq(&c, &vec!['f', 'o', 'l', 'd', 'e', 'r']) {
            Some(NodeKind::Folder)
        } else if chars_eq(&c, &vec!['s', 'e', 'r', 'v', 'e', 'r']) {
            Some(NodeKind::Server)
        } else {
            None
        }
    }
}

#[derive(Clone, Copy, Debug, PartialEq, Eq, Structural)]
pub enum AuthType {
    Password,
    Key,
    OneKey,
}

impl AuthType {
    pub open spec fn db_spelling(self) -> Seq<char> {
        match self {
            AuthType::Password => spell_password(),
            AuthType::Key => spell_key(),
            AuthType::OneKey => spell_onekey(),
        }
    }

    pub open spec fn from_spelling(s: Seq<char>) -> Option<AuthType> {
        if s == spell_password() {
            Some(AuthType::Password)
        } else if s == spell_key() {
            Some(AuthType::Key)
        } else if s == spell_onekey() {
            Some(AuthType::OneKey)
        } else {
            None
        }
    }

    pub fn as_db_str(&self) -> (r: &'static str)
        ensures
            r@ == self.db_spelling(),
    {
        proof {
            reveal_strlit("password");
            reveal_strlit("key");
            reveal_strlit("onekey");
        }
        match self {
            AuthType::Password => "password",
            AuthType::Key => "key",
            AuthType::OneKey => "onekey",
        }
    }

    pub fn parse(s: &str) -> (r: Option<Self>)
        ensures
            r == AuthType::from_spelling(s@),
    {
        let c = chars_of(s);
        if chars_eq(&c, &vec!['p', 'a', 's', 's', 'w', 'o', 'r', 'd']) {
            Some(AuthType::Password)
        } else if chars_eq(&c, &vec!['k', 'e', 'y']) {
            Some(AuthType::Key)
        } else if chars_eq(&c, &vec!['o', 'n', 'e', 'k', 'e', 'y']) {
            Some(AuthType::OneKey)
        } else {
            None
        }
    }
}

#[derive(Clone, Copy, Debug, PartialEq, Eq, Structural)]
pub enum OneKeyCredentialKind {
    Password,
    Key,
}

impl OneKeyCredentialKind {
    pub open spec fn db_spelling(self) -> Seq<char> {
        match self {
            OneKeyCredentialKind::Password => spell_password(),
            OneKeyCredentialKind::Key => spell_key(),
        }
    }

    pub open spec fn from_spelling(s: Seq<char>) -> Option<OneKeyCredentialKind> {
        if s == spell_password() {
            Some(OneKeyCredentialKind::Password)
        } else if s == spell_key() {
            Some(OneKeyCredentialKind::Key)
        } else {
            None
        }
    }

    pub fn as_db_str(&self) -> (r: &'static str)
        ensures
            r@ == self.db_spelling(),
    {
        proof {
            reveal_strlit("password");
            reveal_strlit("key");
        }
        match self {
            OneKeyCredentialKind::Password => "password",
            OneKeyCredentialKind::Key => "key",
        }
    }

    pub fn parse(s: &str) -> (r: Option<Self>)
        ensures
            r == OneKeyCredentialKind::from_spelling(s@),
    {
        let c = chars_of(s);
        if chars_eq(&c, &vec!['p', 'a', 's', 's', 'w', 'o', 'r', 'd']) {
            Some(OneKeyCredentialKind::Password)
        } else if chars_eq(&c, &vec!['k', 'e', 'y']) {
            Some(OneKeyCredentialKind::Key)
        } else {
            None
        }
    }
}

/// Every node kind survives the trip through its database spelling.
pub proof fn node_kind_spelling_round_trip(k: NodeKind)
    ensures
        NodeKind::from_spelling(k.db_spelling()) == Some(k),
{
    assert(spell_folder() != spell_server()) by {
        assert(spell_folder()[0] != spell_server()[0]);
    }
}

/// Every auth type survives the trip through its database spelling.
pub proof fn auth_type_spelling_round_trip(k: AuthType)
    ensures
        AuthType::from_spelling(k.db_spelling()) == Some(k),
{
    assert(spell_password() != spell_key()) by {
        assert(spell_password().len() != spell_key().len());
    }
    assert(spell_password() != spell_onekey()) by {
        assert(spell_password().len() != spell_onekey().len());
    }
    assert(spell_key() != spell_onekey()) by {
        assert(spell_key().len() != spell_onekey().len());
    }
}

/// Every one-key credential kind survives the trip through its spelling.
pub proof fn one_key_kind_spelling_round_trip(k: OneKeyCredentialKind)
    ensures
        OneKeyCredentialKind::from_spelling(k.db_spelling()) == Some(k),
{
    assert(spell_password() != spell_key()) by {
        assert(spell_password().len() != spell_key().len());
    }
}

// ---------------------------------------------------------------------------
// Port forwards
// ---------------------------------------------------------------------------
/// Direction/semantics of an SSH port forward.
#[derive(Clone, Copy, Debug, PartialEq, Eq, Structural)]
pub enum PortForwardKind {
    Local,
    Remote,
    Dynamic,
}

/// A single port forward. For `Dynamic` (SOCKS) `target_host`/`target_port` are
/// unused and should be `None`.
#[derive(Clone, Debug, PartialEq, Eq)]
pub struct PortForward {
    pub kind: PortForwardKind,
    pub bind_host: String,
    pub bind_port: u16,
    pub target_host: Option<String>,
    pub target_port: Option<u16>,
    pub description: Option<String>,
}

/// The abstract value of a [`PortForward`].
pub ghost struct ForwardModel {
    pub kind: PortForwardKind,
    pub bind_host: Seq<char>,
    pub bind_port: u16,
    pub target_host: Option<Seq<char>>,
    pub target_port: Option<u16>,
    pub description: Option<Seq<char>>,
}

pub open spec fn opt_str(o: Option<String>) -> Option<Seq<char>> {
    match o {
        Some(s) => Some(s@),
        None => None,
    }
}

impl View for PortForward {
    type V = ForwardModel;

    open spec fn view(&self) -> ForwardModel {
        ForwardModel {
            kind: self.kind,
            bind_host: self.bind_host@,
            bind_port: self.bind_port,
            target_host: opt_str(self.target_host),
            target_port: self.target_port,
            description: opt_str(self.description),
        }
    }
}

pub open spec fn colon() -> Seq<char> {
    seq![':']
}

/// `ssh -L/-R/-D` value: `bind:port:host:hostport`, or `bind:port` for a
/// dynamic forward; `None` when a local/remote forward lacks its target.
pub open spec fn ssh_spec(f: ForwardModel) -> Option<Seq<char>> {
    match f.kind {
        PortForwardKind::Dynamic => Some(f.bind_host + colon() + dec_str(f.bind_port as nat)),
        _ => match (f.target_host, f.target_port) {
            (Some(h), Some(p)) => Some(
                f.bind_host + colon() + dec_str(f.bind_port as nat) + colon() + h + colon()
                    + dec_str(p as nat),
            ),
            _ => None,
        },
    }
}

/// The local endpoint of a config directive: `port`, or `bind:port`.
pub open spec fn local_endpoint(f: ForwardModel) -> Seq<char> {
    if f.bind_host.len() == 0 {
        dec_str(f.bind_port as nat)
    } else {
        f.bind_host + colon() + dec_str(f.bind_port as nat)
    }
}

/// `~/.ssh/config` directive value: `[bind:]port host:hostport`, or
/// `[bind:]port` for a dynamic forward.
pub open spec fn config_spec(f: ForwardModel) -> Option<Seq<char>> {
    match f.kind {
        PortForwardKind::Dynamic => Some(local_endpoint(f)),
        _ => match (f.target_host, f.target_port) {
            (Some(h), Some(p)) => Some(local_endpoint(f) + seq![' '] + h + colon() + dec_str(p as nat)),
            _ => None,
        },
    }
}

/// `[address:]port` split at the rightmost colon; the address may be empty.
pub open spec fn endpoint(s: Seq<char>) -> Option<(Seq<char>, u16)> {
    match last_index_of(s, ':') {
        Some(k) => match parse_u16(s.skip(k + 1)) {
            Some(p) => Some((s.take(k), p)),
            None => None,
        },
        None => match parse_u16(s) {
            Some(p) => Some((Seq::<char>::empty(), p)),
            None => None,
        },
    }
}

/// The forward a `~/.ssh/config` directive value denotes for `kind`.
pub open spec fn parse_forward(kind: PortForwardKind, s: Seq<char>) -> Option<ForwardModel> {
    let parts = words(s);
    if parts.len() == 0 {
        None
    } else {
        match endpoint(parts[0]) {
            None => None,
            Some((bh, bp)) => match kind {
                PortForwardKind::Dynamic => if parts.len() != 1 {
                    None
                } else {
                    Some(
                        ForwardModel {
                            kind,
                            bind_host: bh,
                            bind_port: bp,
                            target_host: None,
                            target_port: None,
                            description: None,
                        },
                    )
                },
                _ => if parts.len() != 2 {
                    None
                } else {
                    match endpoint(parts[1]) {
                        None => None,
                        Some((th, tp)) => if th.len() == 0 {
                            None
                        } else {
                            Some(
                                ForwardModel {
                                    kind,
                                    bind_host: bh,
                                    bind_port: bp,
                                    target_host: Some(th),
                                    target_port: Some(tp),
                                    description: None,
                                },
                            )
                        },
                    }
                },
            },
        }
    }
}

/// A parsed forward has the kind it was parsed as.
pub proof fn lemma_parse_forward_kind(kind: PortForwardKind, s: Seq<char>)
    ensures
        parse_forward(kind, s) matches Some(f) ==> f.kind == kind,
{
}

pub open spec fn ssh_flag_of(kind: PortForwardKind) -> Seq<char> {
    match kind {
        PortForwardKind::Local => seq!['-', 'L'],
        PortForwardKind::Remote => seq!['-', 'R'],
        PortForwardKind::Dynamic => seq!['-', 'D'],
    }
}

pub open spec fn no_ws(s: Seq<char>) -> bool {
    forall|i: int| 0 <= i < s.len() ==> !is_ws(#[trigger] s[i])
}

/// What a well-formed forward looks like after a config round trip: no
/// description, and no target for a dynamic forward.
pub open spec fn config_normal_form(f: ForwardModel) -> ForwardModel {
    ForwardModel {
        target_host: if f.kind == PortForwardKind::Dynamic {
            None
        } else {
            f.target_host
        },
        target_port: if f.kind == PortForwardKind::Dynamic {
            None
        } else {
            f.target_port
        },
        description: None,
        ..f
    }
}

/// `[address:]port` split at the rightmost colon (`rsplit_once(':')`).
fn parse_endpoint(s: &Vec<char>) -> (r: Option<(Vec<char>, u16)>)
    ensures
        match (r, endpoint(s@)) {
            (Some((h, p)), Some((h2, p2))) => h@ == h2 && p == p2,
            (None, None) => true,
            _ => false,
        },
{
    match rfind_char(s, ':') {
        Some(k) => {
            let port = slice_of(s, k + 1, s.len());
            assert(port@ =~= s@.skip(k + 1));
            match parse_u16_chars(&port) {
                Some(p) => Some((slice_of(s, 0, k), p)),
                None => None,
            }
        },
        None => match parse_u16_chars(s) {
            Some(p) => Some((Vec::new(), p)),
            None => None,
        },
    }
}

pub proof fn lemma_endpoint_of_render(h: Seq<char>, p: u16)
    ensures
        endpoint(h + colon() + dec_str(p as nat)) == Some((h, p)),
        endpoint(dec_str(p as nat)) == Some((Seq::<char>::empty(), p)),
{
    lemma_dec_str(p as nat);
    lemma_parse_dec_str(p);
    let d = dec_str(p as nat);
    let s = h + colon() + d;
    assert forall|j: int| h.len() < j < s.len() implies s[j] != ':' by {
        assert(s[j] == d[j - h.len() - 1]);
    }
    lemma_last_index_of_at(s, ':', h.len() as int);
    assert(s.skip(h.len() + 1int) =~= d);
    assert(s.take(h.len() as int) =~= h);
    assert forall|j: int| 0 <= j < d.len() implies d[j] != ':' by {}
    lemma_last_index_of_at(d, ':', -1);
}

impl PortForward {
    /// Render the forward as the value of an `ssh -L/-R/-D` option (the spec part
    /// only, without the flag). Returns `None` if required fields are missing.
    pub fn to_ssh_spec(&self) -> (r: Option<String>)
        ensures
            opt_str(r) == ssh_spec(self@),
    {
        let mut out = chars_of(self.bind_host.as_str());
        out.push(':');
        let bp = u16_to_chars(self.bind_port);
        extend(&mut out, &bp);
        match self.kind {
            PortForwardKind::Dynamic => {
                assert(out@ =~= self.bind_host@ + colon() + dec_str(self.bind_port as nat));
                Some(string_of(&out))
            },
            _ => match (&self.target_host, &self.target_port) {
                (Some(h), Some(p)) => {
                    out.push(':');
                    let hc = chars_of(h.as_str());
                    extend(&mut out, &hc);
                    out.push(':');
                    let pc = u16_to_chars(*p);
                    extend(&mut out, &pc);
                    assert(out@ =~= self.bind_host@ + colon() + dec_str(self.bind_port as nat)
                        + colon() + h@ + colon() + dec_str(*p as nat));
                    Some(string_of(&out))
                },
                _ => None,
            },
        }
    }

    /// The `ssh` flag (`-L`, `-R`, `-D`) for this forward's kind.
    pub fn ssh_flag(&self) -> (r: &'static str)
        ensures
            r@ == ssh_flag_of(self.kind),
    {
        proof {
            reveal_strlit("-L");
            reveal_strlit("-R");
            reveal_strlit("-D");
        }
        match self.kind {
            PortForwardKind::Local => "-L",
            PortForwardKind::Remote => "-R",
            PortForwardKind::Dynamic => "-D",
        }
    }

    /// Render the forward as the value of an `~/.ssh/config` directive
    /// (`LocalForward` / `RemoteForward` / `DynamicForward`): the local and
    /// remote endpoints are separated by a space. Returns `None` if required
    /// fields are missing.
    pub fn to_config_spec(&self) -> (r: Option<String>)
        ensures
            opt_str(r) == config_spec(self@),
    {
        let bp = u16_to_chars(self.bind_port);
        let local = if self.bind_host.as_str().unicode_len() == 0 {
            bp
        } else {
            let mut l = chars_of(self.bind_host.as_str());
            l.push(':');
            extend(&mut l, &bp);
            l
        };
        assert(local@ =~= local_endpoint(self@));
        match self.kind {
            PortForwardKind::Dynamic => Some(string_of(&local)),
            _ => match (&self.target_host, &self.target_port) {
                (Some(h), Some(p)) => {
                    let mut out = local;
                    out.push(' ');
                    let hc = chars_of(h.as_str());
                    extend(&mut out, &hc);
                    out.push(':');
                    let pc = u16_to_chars(*p);
                    extend(&mut out, &pc);
                    assert(out@ =~= local_endpoint(self@) + seq![' '] + h@ + colon() + dec_str(
                        *p as nat,
                    ));
                    Some(string_of(&out))
                },
                _ => None,
            },
        }
    }

    /// Parse the value of an `~/.ssh/config` forward directive back into a
    /// [`PortForward`]. Accepted local-endpoint forms: `port` (bind host
    /// defaults to empty) and `bind_address:port`. The remote endpoint
    /// (Local/Remote only) is `host:hostport`; the port is split from the
    /// right so IPv6 hosts keep their colons. Returns `None` when the spec is
    /// malformed for the given `kind`.
    pub fn from_config_spec(kind: PortForwardKind, spec: &str) -> (r: Option<Self>)
        ensures
            match (r, parse_forward(kind, spec@)) {
                (Some(f), Some(m)) => f@ == m,
                (None, None) => true,
                _ => false,
            },
    {
        let c = chars_of(spec);
        let parts = split_words(&c);
        proof {
            assert(parts@.map_values(|w: Vec<char>| w@).len() == parts@.len());
        }
        if parts.len() == 0 {
            return None;
        }
        assert(parts@.map_values(|w: Vec<char>| w@)[0] == parts@[0]@);
        let (bind_host, bind_port) = match parse_endpoint(&parts[0]) {
            Some(e) => e,
            None => return None,
        };
        match kind {
            PortForwardKind::Dynamic => {
                if parts.len() != 1 {
                    return None;
                }
                Some(
                    PortForward {
                        kind,
                        bind_host: string_of(&bind_host),
                        bind_port,
                        target_host: None,
                        target_port: None,
                        description: None,
                    },
                )
            },
            _ => {
                if parts.len() != 2 {
                    return None;
                }
                assert(parts@.map_values(|w: Vec<char>| w@)[1] == parts@[1]@);
                let (target_host, target_port) = match parse_endpoint(&parts[1]) {
                    Some(e) => e,
                    None => return None,
                };
                if target_host.len() == 0 {
                    return None;
                }
                Some(
                    PortForward {
                        kind,
                        bind_host: string_of(&bind_host),
                        bind_port,
                        target_host: Some(string_of(&target_host)),
                        target_port: Some(target_port),
                        description: None,
                    },
                )
            },
        }
    }
}

/// Rendering a forward as a `~/.ssh/config` value and parsing it back yields
/// the same forward, minus its description (and, for a dynamic forward, its
/// unused target), whenever the hosts are free of whitespace and a
/// local/remote forward has a non-empty target host.
pub proof fn forward_config_round_trip(f: ForwardModel)
    requires
        config_spec(f) is Some,
        no_ws(f.bind_host),
        f.kind != PortForwardKind::Dynamic ==> (f.target_host matches Some(h) && h.len() > 0
            && no_ws(h)),
    ensures
        parse_forward(f.kind, config_spec(f).unwrap()) == Some(config_normal_form(f)),
{
    lemma_dec_str(f.bind_port as nat);
    lemma_endpoint_of_render(f.bind_host, f.bind_port);
    let local = local_endpoint(f);
    assert(no_ws(local)) by {
        if f.bind_host.len() > 0 {
            let d = dec_str(f.bind_port as nat);
            assert forall|i: int| 0 <= i < local.len() implies !is_ws(#[trigger] local[i]) by {
                if i < f.bind_host.len() {
                    assert(local[i] == f.bind_host[i]);
                } else if i > f.bind_host.len() {
                    assert(local[i] == d[i - f.bind_host.len() - 1]);
                }
            }
        }
    }
    assert(endpoint(local) == Some((f.bind_host, f.bind_port)));
    if f.kind == PortForwardKind::Dynamic {
        lemma_words_single(local);
    } else {
        let h = f.target_host.unwrap();
        let p = f.target_port.unwrap();
        lemma_dec_str(p as nat);
        lemma_endpoint_of_render(h, p);
        let remote = h + colon() + dec_str(p as nat);
        assert forall|i: int| 0 <= i < remote.len() implies !is_ws(#[trigger] remote[i]) by {
            if i < h.len() {
                assert(remote[i] == h[i]);
            } else if i > h.len() {
                assert(remote[i] == dec_str(p as nat)[i - h.len() - 1]);
            }
        }
        lemma_words_pair(local, remote);
        assert(config_spec(f).unwrap() =~= local + seq![' '] + remote);
    }
}

/// Records where a node was imported from in `~/.ssh/config`, so it can later be
/// re-synced one-way (config → node).
#[derive(Clone, Debug, PartialEq, Eq)]
pub struct ImportProvenance {
    pub path: String,
    pub alias: String,
}

/// Extensible per-server configuration.
#[derive(Clone, Debug, PartialEq, Eq)]
pub struct SshAdvancedConfig {
    pub port_forwards: Vec<PortForward>,
    /// Set when the node was imported from `~/.ssh/config`; `None` for manually
    /// created nodes.
    pub imported_from: Option<ImportProvenance>,
}

/// The abstract value of an [`SshAdvancedConfig`].
pub ghost struct AdvancedModel {
    pub port_forwards: Seq<ForwardModel>,
    /// `(path, alias)` of the import provenance.
    pub imported_from: Option<(Seq<char>, Seq<char>)>,
}

impl View for SshAdvancedConfig {
    type V = AdvancedModel;

    open spec fn view(&self) -> AdvancedModel {
        AdvancedModel {
            port_forwards: self.port_forwards@.map_values(|f: PortForward| f@),
            imported_from: match self.imported_from {
                Some(p) => Some((p.path@, p.alias@)),
                None => None,
            },
        }
    }
}

impl Default for SshAdvancedConfig {
    fn default() -> (r: Self)
        ensures
            r@.port_forwards.len() == 0,
            r@.imported_from is None,
    {
        SshAdvancedConfig { port_forwards: Vec::new(), imported_from: None }
    }
}

pub fn copy_opt_string(o: &Option<String>) -> (r: Option<String>)
    ensures
        opt_str(r) == opt_str(*o),
{
    match o {
        Some(s) => Some(s.clone()),
        None => None,
    }
}

impl PortForward {
    /// A field-by-field copy.
    pub fn duplicate(&self) -> (r: PortForward)
        ensures
            r@ == self@,
    {
        PortForward {
            kind: self.kind,
            bind_host: self.bind_host.clone(),
            bind_port: self.bind_port,
            target_host: copy_opt_string(&self.target_host),
            target_port: self.target_port,
            description: copy_opt_string(&self.description),
        }
    }
}

impl SshAdvancedConfig {
    /// A deep copy.
    pub fn duplicate(&self) -> (r: SshAdvancedConfig)
        ensures
            r@ == self@,
    {
        let mut forwards: Vec<PortForward> = Vec::new();
        let mut i: usize = 0;
        while i < self.port_forwards.len()
            invariant
                i <= self.port_forwards.len(),
                forwards@.map_values(|f: PortForward| f@) == self.port_forwards@.take(
                    i as int,
                ).map_values(|f: PortForward| f@),
            decreases self.port_forwards.len() - i,
        {
            let f = self.port_forwards[i].duplicate();
            let ghost prev = forwards@;
            forwards.push(f);
            proof {
                lemma_map_push(prev, f, |f: PortForward| f@);
                lemma_map_take_succ(self.port_forwards@, i as int, |f: PortForward| f@);
            }
            i += 1;
        }
        assert(self.port_forwards@.take(i as int) =~= self.port_forwards@);
        let imported_from = match &self.imported_from {
            Some(p) => Some(ImportProvenance { path: p.path.clone(), alias: p.alias.clone() }),
            None => None,
        };
        let r = SshAdvancedConfig { port_forwards: forwards, imported_from };
        assert(r@.port_forwards =~= self@.port_forwards);
        r
    }
}

/// Connection configuration for a server node. `password` / `passphrase` are
/// not stored here — they go through the keychain.
#[derive(Clone, Debug, PartialEq, Eq)]
pub struct SshServerInfo {
    pub node_id: String,
    pub host: String,
    pub port: u16,
    pub username: String,
    pub auth_type: AuthType,
    pub key_path: Option<String>,
    pub credential_id: Option<String>,
    pub startup_command: Option<String>,
    pub notes: Option<String>,
    pub last_connected_at: Option<chrono::NaiveDateTime>,
    pub advanced: SshAdvancedConfig,
}

/// The abstract value of an [`SshServerInfo`].
pub ghost struct ServerModel {
    pub node_id: Seq<char>,
    pub host: Seq<char>,
    pub port: u16,
    pub username: Seq<char>,
    pub auth_type: AuthType,
    pub key_path: Option<Seq<char>>,
    pub credential_id: Option<Seq<char>>,
    pub startup_command: Option<Seq<char>>,
    pub notes: Option<Seq<char>>,
    pub last_connected_at: Option<chrono::NaiveDateTime>,
    pub advanced: AdvancedModel,
}

impl View for SshServerInfo {
    type V = ServerModel;

    open spec fn view(&self) -> ServerModel {
        ServerModel {
            node_id: self.node_id@,
            host: self.host@,
            port: self.port,
            username: self.username@,
            auth_type: self.auth_type,
            key_path: opt_str(self.key_path),
            credential_id: opt_str(self.credential_id),
            startup_command: opt_str(self.startup_command),
            notes: opt_str(self.notes),
            last_connected_at: self.last_connected_at,
            advanced: self.advanced@,
        }
    }
}

impl SshServerInfo {
    pub fn new_default(node_id: String) -> (r: Self)
        ensures
            r@ == (ServerModel {
                node_id: node_id@,
                host: Seq::<char>::empty(),
                port: 22,
                username: Seq::<char>::empty(),
                auth_type: AuthType::Password,
                key_path: None,
                credential_id: None,
                startup_command: None,
                notes: None,
                last_connected_at: None,
                advanced: AdvancedModel { port_forwards: Seq::empty(), imported_from: None },
            }),
    {
        let advanced = SshAdvancedConfig::default();
        let r = SshServerInfo {
            node_id,
            host: String::new(),
            port: 22,
            username: String::new(),
            auth_type: AuthType::Password,
            key_path: None,
            credential_id: None,
            startup_command: None,
            notes: None,
            last_connected_at: None,
            advanced,
        };
        assert(r@.advanced.port_forwards =~= Seq::<ForwardModel>::empty());
        r
    }

    /// Clone configuration from an existing server, assigning a new node_id.
    pub fn clone_from_template(source: &Self, new_node_id: String) -> (r: Self)
        ensures
            r@ == (ServerModel { node_id: new_node_id@, last_connected_at: None, ..source@ }),
    {
        SshServerInfo {
            node_id: new_node_id,
            host: source.host.clone(),
            port: source.port,
            username: source.username.clone(),
            auth_type: source.auth_type,
            key_path: copy_opt_string(&source.key_path),
            credential_id: copy_opt_string(&source.credential_id),
            startup_command: copy_opt_string(&source.startup_command),
            notes: copy_opt_string(&source.notes),
            last_connected_at: None,
            advanced: source.advanced.duplicate(),
        }
    }

    /// A deep copy.
    pub fn duplicate(&self) -> (r: Self)
        ensures
            r@ == self@,
    {
        SshServerInfo {
            node_id: self.node_id.clone(),
            host: self.host.clone(),
            port: self.port,
            username: self.username.clone(),
            auth_type: self.auth_type,
            key_path: copy_opt_string(&self.key_path),
            credential_id: copy_opt_string(&self.credential_id),
            startup_command: copy_opt_string(&self.startup_command),
            notes: copy_opt_string(&self.notes),
            last_connected_at: self.last_connected_at,
            advanced: self.advanced.duplicate(),
        }
    }
}

/// Tree node (folder or server), without server-only metadata.
#[derive(Clone, Debug)]
pub struct SshNode {
    pub id: String,
    pub parent_id: Option<String>,
    pub kind: NodeKind,
    pub name: String,
    pub sort_order: i32,
    pub created_at: chrono::NaiveDateTime,
    pub updated_at: chrono::NaiveDateTime,
    /// Meaningful only for folders: whether the UI hides the child nodes.
    pub is_collapsed: bool,
}

/// The abstract value of an [`SshNode`].
pub ghost struct NodeModel {
    pub id: Seq<char>,
    pub parent_id: Option<Seq<char>>,
    pub kind: NodeKind,
    pub name: Seq<char>,
    pub sort_order: i32,
    pub created_at: chrono::NaiveDateTime,
    pub updated_at: chrono::NaiveDateTime,
    pub is_collapsed: bool,
}

impl View for SshNode {
    type V = NodeModel;

    open spec fn view(&self) -> NodeModel {
        NodeModel {
            id: self.id@,
            parent_id: opt_str(self.parent_id),
            kind: self.kind,
            name: self.name@,
            sort_order: self.sort_order,
            created_at: self.created_at,
            updated_at: self.updated_at,
            is_collapsed: self.is_collapsed,
        }
    }
}

#[derive(Clone, Debug, PartialEq, Eq)]
pub struct SshOneKeyCredential {
    pub id: String,
    pub label: String,
    pub username: String,
    pub kind: OneKeyCredentialKind,
    pub key_path: Option<String>,
    pub created_at: chrono::NaiveDateTime,
    pub updated_at: chrono::NaiveDateTime,
}

impl SshOneKeyCredential {
    /// `label`, or `label (username)` when a username is set.
    pub fn display_label(&self) -> (r: String)
        ensures
            r@ == (if self.username@.len() == 0 {
                self.label@
            } else {
                self.label@ + seq![' ', '('] + self.username@ + seq![')']
            }),
    {
        let user = chars_of(self.username.as_str());
        if user.len() == 0 {
            self.label.clone()
        } else {
            let mut out = chars_of(self.label.as_str());
            out.push(' ');
            out.push('(');
            extend(&mut out, &user);
            out.push(')');
            assert(out@ =~= self.label@ + seq![' ', '('] + self.username@ + seq![')']);
            string_of(&out)
        }
    }
}

/// The credentials resolved for opening a connection.
#[derive(Clone, Debug, PartialEq, Eq)]
pub struct ResolvedSshAuth {
    pub username: String,
    pub auth_type: AuthType,
    pub key_path: Option<String>,
    pub secret_lookup_id: String,
}

} // verus!
