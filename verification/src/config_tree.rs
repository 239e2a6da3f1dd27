//! The panel's display tree, built from an [`SshConfigDocument`]: the server
//! list grouped by `#SCE_GROUP` markers into collapsible folders, each host
//! carrying its decoded details.
//!
//! - Groups become `Folder` nodes; hosts become `Server` nodes.
//! - A host whose `#SCEGroup` names a known group is a child of that folder;
//!   a host with no group (or an unknown one) sits at the root.
//! - Top-level entries (folders and ungrouped hosts) keep their document
//!   order; a group's hosts are gathered under it in document order.
use vstd::prelude::*;
use crate::config_model::{
    host_view_m, outline_m, string_views, HostView, HostViewModel, OutlineEntry, OutlineModel,
    SshConfigDocument, DocModel, ItemModel, outline_of_item, is_host_for,
    lemma_host_index,
};
use crate::text::{chars_eq, chars_of, lemma_map_push};
use crate::types::{NodeKind, NodeModel, SshNode};

verus! {

/// A display row: a node without its position and timestamps.
pub ghost struct RowModel {
    pub id: Seq<char>,
    pub parent_id: Option<Seq<char>>,
    pub kind: NodeKind,
    pub name: Seq<char>,
    pub is_collapsed: bool,
}

pub open spec fn uuid_of_group(e: OutlineModel) -> Option<Seq<char>> {
    match e {
        OutlineModel::Group { uuid, .. } => Some(uuid),
        _ => None,
    }
}

/// Whether the outline declares a group with this uuid.
pub open spec fn group_known(es: Seq<OutlineModel>, u: Seq<char>) -> bool {
    exists|i: int| 0 <= i < es.len() && #[trigger] uuid_of_group(es[i]) == Some(u)
}

pub open spec fn member_of(u: Seq<char>) -> spec_fn(OutlineModel) -> Option<Seq<char>> {
    |e: OutlineModel|
        match e {
            OutlineModel::Host { alias, group } => if group == Some(u) {
                Some(alias)
            } else {
                None
            },
            _ => None,
        }
}

/// The aliases of the hosts in group `u`, in document order.
pub open spec fn members(es: Seq<OutlineModel>, u: Seq<char>) -> Seq<Seq<char>> {
    es.filter_map(member_of(u))
}

pub open spec fn server_row(alias: Seq<char>, parent: Option<Seq<char>>) -> RowModel {
    RowModel { id: alias, parent_id: parent, kind: NodeKind::Server, name: alias, is_collapsed: false }
}

pub open spec fn folder_row(uuid: Seq<char>, name: Seq<char>, collapsed: bool) -> RowModel {
    RowModel { id: uuid, parent_id: None, kind: NodeKind::Folder, name, is_collapsed: collapsed }
}

/// The rows an outline entry contributes: a folder followed by its
/// members, a host at the root, or nothing for a host that sits in a known
/// group (it is listed under that group's folder).
pub open spec fn entry_rows(es: Seq<OutlineModel>, collapsed: Seq<Seq<char>>, e: OutlineModel) -> Seq<
    RowModel,
> {
    match e {
        OutlineModel::Group { uuid, name } => seq![folder_row(uuid, name, collapsed.contains(uuid))]
            + members(es, uuid).map_values(|a: Seq<char>| server_row(a, Some(uuid))),
        OutlineModel::Host { alias, group } => match group {
            Some(g) => if group_known(es, g) {
                seq![]
            } else {
                seq![server_row(alias, None)]
            },
            None => seq![server_row(alias, None)],
        },
    }
}

/// The rows of the first `k` outline entries.
pub open spec fn rows_upto(es: Seq<OutlineModel>, collapsed: Seq<Seq<char>>, k: int) -> Seq<RowModel>
    decreases k,
{
    if k <= 0 {
        seq![]
    } else {
        rows_upto(es, collapsed, k - 1) + entry_rows(es, collapsed, es[k - 1])
    }
}

/// The rows of the display tree, in display order.
pub open spec fn tree_rows(es: Seq<OutlineModel>, collapsed: Seq<Seq<char>>) -> Seq<RowModel> {
    rows_upto(es, collapsed, es.len() as int)
}

/// The node shown at position `i` for a row, created and updated at `t`.
pub open spec fn row_node(r: RowModel, i: int, t: chrono::NaiveDateTime) -> NodeModel {
    NodeModel {
        id: r.id,
        parent_id: r.parent_id,
        kind: r.kind,
        name: r.name,
        sort_order: i as i32,
        created_at: t,
        updated_at: t,
        is_collapsed: r.is_collapsed,
    }
}

/// The decoded details of a server row's host.
pub open spec fn row_host(d: crate::config_model::DocModel, r: RowModel) -> Option<(Seq<char>, HostViewModel)> {
    if r.kind == NodeKind::Server {
        match host_view_m(d, r.id) {
            Some(v) => Some((r.id, v)),
            None => None,
        }
    } else {
        None
    }
}

/// Whether an entry of `es` has the key `k`.
pub open spec fn has_key(es: Seq<(Seq<char>, HostViewModel)>, k: Seq<char>) -> bool {
    exists|j: int| 0 <= j < es.len() && (#[trigger] es[j]).0 == k
}

/// The entries of `es` whose key has not occurred before, in order: a map
/// from keys to values built from `es`, keeping the first value of a key.
pub open spec fn first_keys(es: Seq<(Seq<char>, HostViewModel)>) -> Seq<(Seq<char>, HostViewModel)>
    decreases es.len(),
{
    if es.len() == 0 {
        seq![]
    } else {
        let p = first_keys(es.drop_last());
        if has_key(p, es.last().0) {
            p
        } else {
            p.push(es.last())
        }
    }
}

/// No key occurs twice.
pub open spec fn distinct_keys(es: Seq<(Seq<char>, HostViewModel)>) -> bool {
    forall|i: int, j: int| 0 <= i < j < es.len() ==> (#[trigger] es[i]).0 != (#[trigger] es[j]).0
}

pub proof fn lemma_first_keys_distinct(es: Seq<(Seq<char>, HostViewModel)>)
    ensures
        distinct_keys(first_keys(es)),
    decreases es.len(),
{
    if es.len() > 0 {
        lemma_first_keys_distinct(es.drop_last());
        let p = first_keys(es.drop_last());
        if !has_key(p, es.last().0) {
            let q = p.push(es.last());
            assert forall|i: int, j: int| 0 <= i < j < q.len() implies (#[trigger] q[i]).0 != (
            #[trigger] q[j]).0 by {
                if j == q.len() - 1 {
                    assert(q[i] == p[i]);
                } else {
                    assert(q[i] == p[i] && q[j] == p[j]);
                }
            }
        }
    }
}

proof fn lemma_first_keys_push(es: Seq<(Seq<char>, HostViewModel)>, e: (Seq<char>, HostViewModel))
    ensures
        first_keys(es.push(e)) == if has_key(first_keys(es), e.0) {
            first_keys(es)
        } else {
            first_keys(es).push(e)
        },
{
    assert(es.push(e).drop_last() =~= es);
}

/// The display model derived from a config document.
pub struct SshConfigTree {
    /// Folder and server nodes in display order (a folder is immediately
    /// followed by its children).
    pub nodes: Vec<SshNode>,
    /// Decoded host details of the server nodes, keyed by alias (the server
    /// node's `id`), in display order; each alias occurs once.
    pub hosts: Vec<(String, HostView)>,
}

pub open spec fn host_entries(v: Seq<(String, HostView)>) -> Seq<(Seq<char>, HostViewModel)> {
    v.map_values(|p: (String, HostView)| (p.0@, p.1@))
}

impl SshConfigTree {
    /// The decoded details of the host shown as server node `alias`.
    pub fn host(&self, alias: &str) -> (r: Option<&HostView>)
        ensures
            match r {
                Some(v) => exists|i: int|
                    0 <= i < self.hosts.len() && self.hosts@[i].0@ == alias@ && #[trigger] self.hosts@[i].1@
                        == v@,
                None => forall|i: int| 0 <= i < self.hosts.len() ==> (#[trigger] self.hosts@[i]).0@ != alias@,
            },
    {
        let a = chars_of(alias);
        let mut i: usize = 0;
        while i < self.hosts.len()
            invariant
                i <= self.hosts.len(),
                a@ == alias@,
                forall|j: int| 0 <= j < i ==> (#[trigger] self.hosts@[j]).0@ != alias@,
            decreases self.hosts.len() - i,
        {
            if chars_eq(&chars_of(self.hosts[i].0.as_str()), &a) {
                let v = &self.hosts[i].1;
                assert(self.hosts@[i as int].1@ == v@);
                return Some(v);
            }
            i += 1;
        }
        None
    }
}

/// A fixed timestamp for the synthetic nodes: `DateTime::UNIX_EPOCH`
/// converted with `naive_utc`. The config file has no per-entry timestamps
/// and the panel does not show them; nothing is stated of the value, which
/// the tree builder takes once and gives to every node.
#[verifier::external_body]
fn epoch() -> chrono::NaiveDateTime {
    chrono::DateTime::UNIX_EPOCH.naive_utc()
}

fn has_host_key(hosts: &Vec<(String, HostView)>, k: &String) -> (b: bool)
    ensures
        b == has_key(host_entries(hosts@), k@),
{
    let ghost es = host_entries(hosts@);
    let mut i: usize = 0;
    while i < hosts.len()
        invariant
            i <= hosts.len(),
            es == host_entries(hosts@),
            forall|j: int| 0 <= j < i ==> (#[trigger] es[j]).0 != k@,
        decreases hosts.len() - i,
    {
        assert(es[i as int] == (hosts@[i as int].0@, hosts@[i as int].1@));
        if same_string(&hosts[i].0, k) {
            return true;
        }
        i += 1;
    }
    false
}

fn same_string(a: &String, b: &String) -> (r: bool)
    ensures
        r == (a@ == b@),
{
    chars_eq(&chars_of(a.as_str()), &chars_of(b.as_str()))
}

fn folder_node(
    uuid: &String,
    name: &String,
    sort_order: i32,
    collapsed: bool,
    t: &chrono::NaiveDateTime,
) -> (r: SshNode)
    ensures
        r@ == row_node(folder_row(uuid@, name@, collapsed), sort_order as int, *t),
{
    SshNode {
        id: uuid.clone(),
        parent_id: None,
        kind: NodeKind::Folder,
        name: name.clone(),
        sort_order,
        created_at: t.clone(),
        updated_at: t.clone(),
        is_collapsed: collapsed,
    }
}

fn server_node(
    alias: &String,
    parent: Option<&String>,
    sort_order: i32,
    t: &chrono::NaiveDateTime,
) -> (r: SshNode)
    ensures
        r@ == row_node(
            server_row(
                alias@,
                match parent {
                    Some(p) => Some(p@),
                    None => None,
                },
            ),
            sort_order as int,
            *t,
        ),
{
    SshNode {
        id: alias.clone(),
        parent_id: match parent {
            Some(p) => Some(p.clone()),
            None => None,
        },
        kind: NodeKind::Server,
        name: alias.clone(),
        sort_order,
        created_at: t.clone(),
        updated_at: t.clone(),
        is_collapsed: false,
    }
}


/// The nodes of the rows, each at its own position, all created and
/// updated at `t`.
pub open spec fn nodes_of(rows: Seq<RowModel>, t: chrono::NaiveDateTime) -> Seq<NodeModel> {
    Seq::new(rows.len(), |i: int| row_node(rows[i], i, t))
}

pub open spec fn outline_views(v: Seq<OutlineEntry>) -> Seq<OutlineModel> {
    v.map_values(|e: OutlineEntry| e@)
}

proof fn lemma_rows_grow(es: Seq<OutlineModel>, c: Seq<Seq<char>>, a: int, b: int)
    requires
        0 <= a <= b,
    ensures
        rows_upto(es, c, a).len() <= rows_upto(es, c, b).len(),
    decreases b - a,
{
    if a < b {
        lemma_rows_grow(es, c, a, b - 1);
    }
}

proof fn lemma_members_prefix(es: Seq<OutlineModel>, u: Seq<char>, j: int)
    requires
        0 <= j <= es.len(),
    ensures
        es.take(j).filter_map(member_of(u)).len() <= members(es, u).len(),
{
    assert(es =~= es.take(j) + es.skip(j));
    crate::text::lemma_filter_map_add(es.take(j), es.skip(j), member_of(u));
}

proof fn lemma_nodes_push(rows: Seq<RowModel>, r: RowModel, t: chrono::NaiveDateTime)
    ensures
        nodes_of(rows.push(r), t) == nodes_of(rows, t).push(row_node(r, rows.len() as int, t)),
{
    assert(nodes_of(rows.push(r), t) =~= nodes_of(rows, t).push(row_node(r, rows.len() as int, t)));
}

fn known_group(outline: &Vec<OutlineEntry>, g: &String) -> (b: bool)
    ensures
        b == group_known(outline_views(outline@), g@),
{
    let ghost es = outline_views(outline@);
    let mut i: usize = 0;
    while i < outline.len()
        invariant
            i <= outline.len(),
            es == outline_views(outline@),
            forall|j: int| 0 <= j < i ==> #[trigger] uuid_of_group(es[j]) != Some(g@),
        decreases outline.len() - i,
    {
        assert(es[i as int] == outline@[i as int]@);
        match &outline[i] {
            OutlineEntry::Group { uuid, .. } => {
                if same_string(uuid, g) {
                    assert(uuid_of_group(es[i as int]) == Some(g@));
                    return true;
                }
            },
            _ => {},
        }
        i += 1;
    }
    false
}

fn in_collapsed(collapsed: &[String], u: &String) -> (b: bool)
    ensures
        b == string_views(collapsed@).contains(u@),
{
    let ghost cs = string_views(collapsed@);
    let mut i: usize = 0;
    while i < collapsed.len()
        invariant
            i <= collapsed.len(),
            cs == string_views(collapsed@),
            forall|j: int| 0 <= j < i ==> cs[j] != u@,
        decreases collapsed.len() - i,
    {
        assert(cs[i as int] == collapsed@[i as int]@);
        if same_string(&collapsed[i], u) {
            return true;
        }
        i += 1;
    }
    false
}

/// Build the grouped display tree. `collapsed` holds the uuids of the
/// folders the user has collapsed (panel state; the config has no collapse
/// flag). Every node carries one and the same creation and update time.
pub fn build_config_tree(doc: &SshConfigDocument, collapsed: &[String]) -> (r: SshConfigTree)
    requires
        tree_rows(outline_m(doc@.items), string_views(collapsed@)).len() <= i32::MAX,
    ensures
        exists|t: chrono::NaiveDateTime|
            r.nodes@.map_values(|n: SshNode| n@) == #[trigger] nodes_of(
                tree_rows(outline_m(doc@.items), string_views(collapsed@)),
                t,
            ),
        host_entries(r.hosts@) == first_keys(
            tree_rows(outline_m(doc@.items), string_views(collapsed@)).filter_map(
                |row: RowModel| row_host(doc@, row),
            ),
        ),
        distinct_keys(host_entries(r.hosts@)),
{
    let outline = doc.outline();
    let ghost es = outline_m(doc@.items);
    let ghost cs = string_views(collapsed@);
    let ghost total = tree_rows(es, cs);
    assert(outline_views(outline@) == es);
    let t = epoch();
    let mut nodes: Vec<SshNode> = Vec::new();
    let mut k: usize = 0;
    while k < outline.len()
        invariant
            k <= outline.len(),
            es == outline_views(outline@),
            cs == string_views(collapsed@),
            total == tree_rows(es, cs),
            total.len() <= i32::MAX,
            nodes@.map_values(|n: SshNode| n@) == nodes_of(rows_upto(es, cs, k as int), t),
        decreases outline.len() - k,
    {
        let ghost before = rows_upto(es, cs, k as int);
        proof {
            lemma_rows_grow(es, cs, k + 1, es.len() as int);
            assert(es[k as int] == outline@[k as int]@);
            assert(rows_upto(es, cs, k + 1) == before + entry_rows(es, cs, es[k as int]));
            assert(nodes@.map_values(|n: SshNode| n@).len() == nodes@.len());
            assert(nodes@.len() == before.len());
        }
        match &outline[k] {
            OutlineEntry::Group { uuid, name } => {
                let is_collapsed = in_collapsed(collapsed, uuid);
                let n = folder_node(uuid, name, nodes.len() as i32, is_collapsed, &t);
                let ghost prev = nodes@;
                nodes.push(n);
                proof {
                    lemma_map_push(prev, n, |n: SshNode| n@);
                    lemma_nodes_push(before, folder_row(uuid@, name@, is_collapsed), t);
                }
                let ghost head = before.push(folder_row(uuid@, name@, is_collapsed));
                let ghost srv = |a: Seq<char>| server_row(a, Some(uuid@));
                let mut j: usize = 0;
                while j < outline.len()
                    invariant
                        j <= outline.len(),
                        es == outline_views(outline@),
                        total.len() <= i32::MAX,
                        head.len() + members(es, uuid@).len() <= total.len(),
                        srv == (|a: Seq<char>| server_row(a, Some(uuid@))),
                        nodes@.map_values(|n: SshNode| n@) == nodes_of(
                            head + es.take(j as int).filter_map(member_of(uuid@)).map_values(srv),
                            t,
                        ),
                    decreases outline.len() - j,
                {
                    let ghost cur = head + es.take(j as int).filter_map(member_of(uuid@)).map_values(srv);
                    proof {
                        assert(es[j as int] == outline@[j as int]@);
                        crate::text::lemma_filter_map_take_succ(es, j as int, member_of(uuid@));
                        lemma_members_prefix(es, uuid@, j + 1);
                        assert(nodes@.map_values(|n: SshNode| n@).len() == nodes@.len());
                        assert(nodes@.len() == cur.len());
                    }
                    match &outline[j] {
                        OutlineEntry::Host { alias, group: Some(g) } => {
                            if same_string(g, uuid) {
                                let n = server_node(alias, Some(uuid), nodes.len() as i32, &t);
                                let ghost prev = nodes@;
                                nodes.push(n);
                                proof {
                                    lemma_map_push(prev, n, |n: SshNode| n@);
                                    lemma_nodes_push(cur, server_row(alias@, Some(uuid@)), t);
                                    let ms = es.take(j as int).filter_map(member_of(uuid@));
                                    assert(es.take(j + 1).filter_map(member_of(uuid@)) =~= ms.push(alias@));
                                    lemma_map_push(ms, alias@, srv);
                                    assert(cur.push(server_row(alias@, Some(uuid@))) =~= head
                                        + es.take(j + 1).filter_map(member_of(uuid@)).map_values(srv));
                                }
                            } else {
                                assert(cur =~= head + es.take(j + 1).filter_map(member_of(uuid@)).map_values(srv));
                            }
                        },
                        _ => {
                            assert(cur =~= head + es.take(j + 1).filter_map(member_of(uuid@)).map_values(srv));
                        },
                    }
                    j += 1;
                }
                proof {
                    assert(es.take(j as int) =~= es);
                    assert(head + members(es, uuid@).map_values(srv) =~= before + entry_rows(
                        es,
                        cs,
                        es[k as int],
                    ));
                }
            },
            OutlineEntry::Host { alias, group } => {
                let top = match group {
                    Some(g) => !known_group(&outline, g),
                    None => true,
                };
                if top {
                    let n = server_node(alias, None, nodes.len() as i32, &t);
                    let ghost prev = nodes@;
                    nodes.push(n);
                    proof {
                        lemma_map_push(prev, n, |n: SshNode| n@);
                        lemma_nodes_push(before, server_row(alias@, None), t);
                        assert(before.push(server_row(alias@, None)) =~= before + entry_rows(
                            es,
                            cs,
                            es[k as int],
                        ));
                    }
                } else {
                    assert(before =~= before + entry_rows(es, cs, es[k as int]));
                }
            },
        }
        k += 1;
    }
    // The decoded host of every server node.
    let ghost rows = total;
    assert(nodes@.map_values(|n: SshNode| n@).len() == nodes@.len());
    assert(nodes.len() == rows.len());
    let mut hosts: Vec<(String, HostView)> = Vec::new();
    let mut i: usize = 0;
    while i < nodes.len()
        invariant
            i <= nodes.len(),
            nodes.len() == rows.len(),
            rows == tree_rows(es, cs),
            nodes@.map_values(|n: SshNode| n@) == nodes_of(rows, t),
            host_entries(hosts@) == first_keys(
                rows.take(i as int).filter_map(|row: RowModel| row_host(doc@, row)),
            ),
        decreases nodes.len() - i,
    {
        let ghost f = |row: RowModel| row_host(doc@, row);
        let ghost seen = rows.take(i as int).filter_map(f);
        proof {
            crate::text::lemma_filter_map_take_succ(rows, i as int, f);
            assert(nodes@.map_values(|n: SshNode| n@)[i as int] == nodes@[i as int]@);
            assert(nodes@[i as int]@ == row_node(rows[i as int], i as int, t));
            match f(rows[i as int]) {
                Some(x) => {
                    assert(rows.take(i + 1).filter_map(f) =~= seen.push(x));
                },
                None => {
                    assert(rows.take(i + 1).filter_map(f) =~= seen);
                },
            }
        }
        let n = &nodes[i];
        if n.kind == NodeKind::Server {
            match doc.host_view(n.id.as_str()) {
                Some(v) => {
                    proof {
                        lemma_first_keys_push(seen, (n.id@, v@));
                    }
                    if !has_host_key(&hosts, &n.id) {
                        let e = (n.id.clone(), v);
                        let ghost prev = hosts@;
                        hosts.push(e);
                        proof {
                            lemma_map_push(prev, e, |p: (String, HostView)| (p.0@, p.1@));
                        }
                    }
                },
                None => {},
            }
        }
        i += 1;
    }
    assert(rows.take(i as int) =~= rows);
    proof {
        lemma_first_keys_distinct(rows.filter_map(|row: RowModel| row_host(doc@, row)));
    }
    SshConfigTree { nodes, hosts }
}

proof fn lemma_rows_contain_entry(es: Seq<OutlineModel>, c: Seq<Seq<char>>, m: int, n: int, r: RowModel)
    requires
        0 <= m < n,
        entry_rows(es, c, es[m]).contains(r),
    ensures
        rows_upto(es, c, n).contains(r),
    decreases n,
{
    let prev = rows_upto(es, c, n - 1);
    let cur = entry_rows(es, c, es[n - 1]);
    assert(rows_upto(es, c, n) == prev + cur);
    if m == n - 1 {
        let j = choose|j: int| 0 <= j < cur.len() && cur[j] == r;
        assert((prev + cur)[prev.len() + j] == r);
    } else {
        lemma_rows_contain_entry(es, c, m, n - 1, r);
        let j = choose|j: int| 0 <= j < prev.len() && prev[j] == r;
        assert((prev + cur)[j] == r);
    }
}

proof fn lemma_filter_map_contains<A, B>(s: Seq<A>, f: spec_fn(A) -> Option<B>, k: int)
    requires
        0 <= k < s.len(),
        f(s[k]) is Some,
    ensures
        s.filter_map(f).contains(f(s[k])->0),
{
    let y = f(s[k])->0;
    assert(s =~= s.take(k) + seq![s[k]] + s.skip(k + 1));
    crate::text::lemma_filter_map_add(s.take(k) + seq![s[k]], s.skip(k + 1), f);
    crate::text::lemma_filter_map_add(s.take(k), seq![s[k]], f);
    crate::text::lemma_filter_map_single(s[k], f);
    let fm = s.filter_map(f);
    assert(fm[s.take(k).filter_map(f).len() as int] == y);
}

proof fn lemma_filter_map_source<A, B>(s: Seq<A>, f: spec_fn(A) -> Option<B>, k: int)
    requires
        0 <= k < s.filter_map(f).len(),
    ensures
        exists|i: int| 0 <= i < s.len() && #[trigger] f(s[i]) == Some(s.filter_map(f)[k]),
    decreases s.len(),
{
    let s0 = s.drop_last();
    assert(s =~= s0 + seq![s.last()]);
    crate::text::lemma_filter_map_add(s0, seq![s.last()], f);
    crate::text::lemma_filter_map_single(s.last(), f);
    if k < s0.filter_map(f).len() {
        lemma_filter_map_source(s0, f, k);
        let i = choose|i: int| 0 <= i < s0.len() && #[trigger] f(s0[i]) == Some(s0.filter_map(f)[k]);
        assert(s[i] == s0[i]);
    } else {
        assert(f(s[s.len() - 1]) == Some(s.filter_map(f)[k]));
    }
}

/// Every host of the document is shown: under the folder of the group it
/// names when that group is declared, at the root otherwise.
pub proof fn every_host_is_shown(es: Seq<OutlineModel>, c: Seq<Seq<char>>, k: int)
    requires
        0 <= k < es.len(),
        es[k] is Host,
    ensures
        ({
            let (alias, group) = (es[k]->Host_alias, es[k]->Host_group);
            let parent = match group {
                Some(g) => if group_known(es, g) {
                    Some(g)
                } else {
                    None
                },
                None => None,
            };
            tree_rows(es, c).contains(server_row(alias, parent))
        }),
{
    let alias = es[k]->Host_alias;
    let group = es[k]->Host_group;
    match group {
        Some(g) => {
            if group_known(es, g) {
                let i = choose|i: int| 0 <= i < es.len() && #[trigger] uuid_of_group(es[i]) == Some(g);
                let name = es[i]->Group_name;
                lemma_filter_map_contains(es, member_of(g), k);
                let ms = members(es, g);
                let j = choose|j: int| 0 <= j < ms.len() && ms[j] == alias;
                let srv = |a: Seq<char>| server_row(a, Some(g));
                let rows = entry_rows(es, c, es[i]);
                assert(rows == seq![folder_row(g, name, c.contains(g))] + ms.map_values(srv));
                assert(rows[1 + j] == server_row(alias, Some(g)));
                lemma_rows_contain_entry(es, c, i, es.len() as int, server_row(alias, Some(g)));
            } else {
                assert(entry_rows(es, c, es[k])[0] == server_row(alias, None));
                lemma_rows_contain_entry(es, c, k, es.len() as int, server_row(alias, None));
            }
        },
        None => {
            assert(entry_rows(es, c, es[k])[0] == server_row(alias, None));
            lemma_rows_contain_entry(es, c, k, es.len() as int, server_row(alias, None));
        },
    }
}

/// Some row before row `m` is the folder named by row `m`'s parent.
pub open spec fn folder_before(rows: Seq<RowModel>, m: int) -> bool {
    exists|j: int|
        #![trigger rows[j]]
        0 <= j < m && rows[j].kind == NodeKind::Folder && Some(rows[j].id) == rows[m].parent_id
}

proof fn lemma_rows_folder_before(es: Seq<OutlineModel>, c: Seq<Seq<char>>, k: int)
    requires
        0 <= k <= es.len(),
    ensures
        forall|m: int|
            0 <= m < rows_upto(es, c, k).len() && (#[trigger] rows_upto(es, c, k)[m]).parent_id is Some
                ==> folder_before(rows_upto(es, c, k), m),
    decreases k,
{
    if k > 0 {
        lemma_rows_folder_before(es, c, k - 1);
        let prev = rows_upto(es, c, k - 1);
        let cur = entry_rows(es, c, es[k - 1]);
        let rows = rows_upto(es, c, k);
        assert(rows == prev + cur);
        assert forall|m: int| 0 <= m < rows.len() && (#[trigger] rows[m]).parent_id is Some implies folder_before(
            rows,
            m,
        ) by {
            if m < prev.len() {
                assert(rows[m] == prev[m]);
                assert(prev[m].parent_id is Some);
                assert(folder_before(prev, m));
                let j = choose|j: int|
                    #![trigger prev[j]]
                    0 <= j < m && prev[j].kind == NodeKind::Folder && Some(prev[j].id) == prev[m].parent_id;
                assert(rows[j] == prev[j]);
            } else {
                let o = m - prev.len();
                assert(rows[m] == cur[o]);
                match es[k - 1] {
                    OutlineModel::Group { uuid, name } => {
                        let ms = members(es, uuid);
                        let srv = |a: Seq<char>| server_row(a, Some(uuid));
                        assert(cur == seq![folder_row(uuid, name, c.contains(uuid))] + ms.map_values(srv));
                        if o > 0 {
                            assert(cur[o] == srv(ms[o - 1]));
                        }
                        let j = prev.len() as int;
                        assert(rows[j] == cur[0]);
                    },
                    OutlineModel::Host { alias, group } => {},
                }
            }
        }
    }
}

/// In the display tree every server placed in a folder comes after that
/// folder's own row.
pub proof fn folder_precedes_its_servers(es: Seq<OutlineModel>, c: Seq<Seq<char>>)
    ensures
        forall|m: int|
            0 <= m < tree_rows(es, c).len() && (#[trigger] tree_rows(es, c)[m]).parent_id is Some
                ==> folder_before(tree_rows(es, c), m),
{
    lemma_rows_folder_before(es, c, es.len() as int);
}

/// Each node shows its own position as its sort order, and all nodes carry
/// the same timestamps.
pub proof fn sort_order_is_position(rows: Seq<RowModel>, t: chrono::NaiveDateTime)
    requires
        rows.len() <= i32::MAX,
    ensures
        forall|i: int| 0 <= i < rows.len() ==> (#[trigger] nodes_of(rows, t)[i]).sort_order == i && nodes_of(
            rows,
            t,
        )[i].created_at == t && nodes_of(rows, t)[i].updated_at == t,
{
}

pub open spec fn host_alias_of(e: OutlineModel) -> Option<Seq<char>> {
    match e {
        OutlineModel::Host { alias, .. } => Some(alias),
        _ => None,
    }
}

/// An alias that some host entry of the outline carries.
pub open spec fn outline_has_alias(es: Seq<OutlineModel>, a: Seq<char>) -> bool {
    exists|i: int| 0 <= i < es.len() && #[trigger] host_alias_of(es[i]) == Some(a)
}

proof fn lemma_server_rows_are_hosts(es: Seq<OutlineModel>, c: Seq<Seq<char>>, k: int)
    requires
        0 <= k <= es.len(),
    ensures
        forall|m: int|
            0 <= m < rows_upto(es, c, k).len() && (#[trigger] rows_upto(es, c, k)[m]).kind
                == NodeKind::Server ==> outline_has_alias(es, rows_upto(es, c, k)[m].id),
    decreases k,
{
    if k > 0 {
        lemma_server_rows_are_hosts(es, c, k - 1);
        let prev = rows_upto(es, c, k - 1);
        let cur = entry_rows(es, c, es[k - 1]);
        let rows = rows_upto(es, c, k);
        assert(rows == prev + cur);
        assert forall|m: int| 0 <= m < rows.len() && (#[trigger] rows[m]).kind == NodeKind::Server implies outline_has_alias(
            es,
            rows[m].id,
        ) by {
            if m < prev.len() {
                assert(rows[m] == prev[m]);
            } else {
                let o = m - prev.len();
                assert(rows[m] == cur[o]);
                match es[k - 1] {
                    OutlineModel::Group { uuid, name } => {
                        let ms = members(es, uuid);
                        let srv = |a: Seq<char>| server_row(a, Some(uuid));
                        assert(cur == seq![folder_row(uuid, name, c.contains(uuid))] + ms.map_values(srv));
                        assert(o > 0);
                        assert(cur[o] == srv(ms[o - 1]));
                        lemma_filter_map_source(es, member_of(uuid), o - 1);
                        let i = choose|i: int|
                            0 <= i < es.len() && #[trigger] member_of(uuid)(es[i]) == Some(ms[o - 1]);
                        assert(host_alias_of(es[i]) == Some(ms[o - 1]));
                    },
                    OutlineModel::Host { alias, group } => {
                        assert(host_alias_of(es[k - 1]) == Some(rows[m].id));
                    },
                }
            }
        }
    }
}

proof fn lemma_first_keys_has(es: Seq<(Seq<char>, HostViewModel)>, k: Seq<char>)
    ensures
        has_key(first_keys(es), k) <==> has_key(es, k),
    decreases es.len(),
{
    if es.len() > 0 {
        let e0 = es.drop_last();
        lemma_first_keys_has(e0, k);
        let p = first_keys(e0);
        assert(es =~= e0.push(es.last()));
        if has_key(first_keys(es), k) {
            if first_keys(es) != p {
                let j = choose|j: int| 0 <= j < first_keys(es).len() && (#[trigger] first_keys(es)[j]).0 == k;
                if j < p.len() {
                    assert(first_keys(es)[j] == p[j]);
                } else {
                    assert(es[es.len() - 1].0 == k);
                }
            } else {
                let j = choose|j: int| 0 <= j < e0.len() && (#[trigger] e0[j]).0 == k;
                assert(es[j] == e0[j]);
            }
        }
        if has_key(es, k) {
            let j = choose|j: int| 0 <= j < es.len() && (#[trigger] es[j]).0 == k;
            if j < e0.len() {
                assert(e0[j] == es[j]);
                let q = choose|q: int| 0 <= q < p.len() && (#[trigger] p[q]).0 == k;
                if first_keys(es) != p {
                    assert(first_keys(es)[q] == p[q]);
                }
            } else if !has_key(p, k) {
                assert(first_keys(es)[p.len() as int] == es.last());
            }
        }
    }
}

/// The decoded hosts of the tree are keyed by exactly the server nodes'
/// ids: every server node has its details, and every entry belongs to a
/// server node.
pub proof fn hosts_are_the_servers(d: DocModel, c: Seq<Seq<char>>, k: Seq<char>)
    ensures
        ({
            let rows = tree_rows(outline_m(d.items), c);
            has_key(first_keys(rows.filter_map(|row: RowModel| row_host(d, row))), k) <==> exists|m: int|
                0 <= m < rows.len() && (#[trigger] rows[m]).kind == NodeKind::Server && rows[m].id == k
        }),
{
    let es = outline_m(d.items);
    let rows = tree_rows(es, c);
    let f = |row: RowModel| row_host(d, row);
    let fm = rows.filter_map(f);
    lemma_first_keys_has(fm, k);
    if has_key(fm, k) {
        let j = choose|j: int| 0 <= j < fm.len() && (#[trigger] fm[j]).0 == k;
        lemma_filter_map_source(rows, f, j);
        let m = choose|m: int| 0 <= m < rows.len() && #[trigger] f(rows[m]) == Some(fm[j]);
        assert(rows[m].kind == NodeKind::Server && rows[m].id == k);
    }
    if exists|m: int| 0 <= m < rows.len() && (#[trigger] rows[m]).kind == NodeKind::Server && rows[m].id == k {
        let m = choose|m: int| 0 <= m < rows.len() && (#[trigger] rows[m]).kind == NodeKind::Server && rows[m].id == k;
        lemma_server_rows_are_hosts(es, c, es.len() as int);
        assert(outline_has_alias(es, k));
        let i = choose|i: int| 0 <= i < es.len() && #[trigger] host_alias_of(es[i]) == Some(k);
        lemma_filter_map_source(d.items, |it: ItemModel| outline_of_item(it), i);
        let p = choose|p: int|
            0 <= p < d.items.len() && #[trigger] outline_of_item(d.items[p]) == Some(es[i]);
        assert(is_host_for(d.items[p], k)) by {
            if let ItemModel::Host(h) = d.items[p] {
                assert(h.patterns[0] == k);
            }
        }
        lemma_host_index(d.items, k);
        assert(host_view_m(d, k) is Some);
        lemma_filter_map_contains(rows, f, m);
        let y = f(rows[m])->0;
        let q = choose|q: int| 0 <= q < fm.len() && fm[q] == y;
        assert(fm[q].0 == k);
    }
}

// ---------------------------------------------------------------------------
// The layout of the rows
// ---------------------------------------------------------------------------
pub open spec fn folder_pick(r: RowModel) -> Option<RowModel> {
    if r.kind == NodeKind::Folder {
        Some(r)
    } else {
        None
    }
}

pub open spec fn root_pick(r: RowModel) -> Option<RowModel> {
    if r.parent_id is None {
        Some(r)
    } else {
        None
    }
}

pub open spec fn child_pick(u: Seq<char>) -> spec_fn(RowModel) -> Option<RowModel> {
    |r: RowModel| if r.parent_id == Some(u) {
        Some(r)
    } else {
        None
    }
}

/// The folder row of a group entry, collapsed exactly when its uuid is in
/// `collapsed`.
pub open spec fn group_folder(collapsed: Seq<Seq<char>>, e: OutlineModel) -> Option<RowModel> {
    match e {
        OutlineModel::Group { uuid, name } => Some(folder_row(uuid, name, collapsed.contains(uuid))),
        _ => None,
    }
}

/// The top-level row of an entry: a group's folder, or a host whose group
/// is absent or not declared.
pub open spec fn top_row(es: Seq<OutlineModel>, collapsed: Seq<Seq<char>>, e: OutlineModel) -> Option<
    RowModel,
> {
    match e {
        OutlineModel::Group { uuid, name } => Some(folder_row(uuid, name, collapsed.contains(uuid))),
        OutlineModel::Host { alias, group } => match group {
            Some(g) => if group_known(es, g) {
                None
            } else {
                Some(server_row(alias, None))
            },
            None => Some(server_row(alias, None)),
        },
    }
}

proof fn lemma_filter_map_keep_all<A>(s: Seq<A>, f: spec_fn(A) -> Option<A>)
    requires
        forall|i: int| 0 <= i < s.len() ==> f(#[trigger] s[i]) == Some(s[i]),
    ensures
        s.filter_map(f) == s,
    decreases s.len(),
{
    if s.len() > 0 {
        let s0 = s.drop_last();
        assert forall|i: int| 0 <= i < s0.len() implies f(#[trigger] s0[i]) == Some(s0[i]) by {
            assert(s0[i] == s[i]);
        }
        lemma_filter_map_keep_all(s0, f);
        assert(s =~= s0 + seq![s.last()]);
        crate::text::lemma_filter_map_add(s0, seq![s.last()], f);
        crate::text::lemma_filter_map_single(s.last(), f);
        assert(f(s[s.len() - 1]) == Some(s.last()));
    }
}

/// One step of the row list: the rows of entry `k - 1` follow those before.
proof fn lemma_rows_step<B>(es: Seq<OutlineModel>, c: Seq<Seq<char>>, k: int, f: spec_fn(RowModel) -> Option<B>, g: spec_fn(OutlineModel) -> Option<B>)
    requires
        0 < k <= es.len(),
    ensures
        rows_upto(es, c, k).filter_map(f) == rows_upto(es, c, k - 1).filter_map(f) + entry_rows(
            es,
            c,
            es[k - 1],
        ).filter_map(f),
        es.take(k).filter_map(g) == es.take(k - 1).filter_map(g) + seq![es[k - 1]].filter_map(g),
{
    crate::text::lemma_filter_map_add(rows_upto(es, c, k - 1), entry_rows(es, c, es[k - 1]), f);
    assert(es.take(k) =~= es.take(k - 1) + seq![es[k - 1]]);
    crate::text::lemma_filter_map_add(es.take(k - 1), seq![es[k - 1]], g);
}

proof fn lemma_rows_folders(es: Seq<OutlineModel>, c: Seq<Seq<char>>, k: int)
    requires
        0 <= k <= es.len(),
    ensures
        rows_upto(es, c, k).filter_map(|r: RowModel| folder_pick(r)) == es.take(k).filter_map(
            |e: OutlineModel| group_folder(c, e),
        ),
    decreases k,
{
    let f = |r: RowModel| folder_pick(r);
    let g = |e: OutlineModel| group_folder(c, e);
    if k == 0 {
        assert(es.take(0) =~= Seq::<OutlineModel>::empty());
        assert(rows_upto(es, c, 0).filter_map(f) =~= Seq::<RowModel>::empty());
        assert(es.take(0).filter_map(g) =~= Seq::<RowModel>::empty());
    } else {
        lemma_rows_folders(es, c, k - 1);
        lemma_rows_step(es, c, k, f, g);
        crate::text::lemma_filter_map_single(es[k - 1], g);
        match es[k - 1] {
            OutlineModel::Group { uuid, name } => {
                let fr = folder_row(uuid, name, c.contains(uuid));
                let ms = members(es, uuid).map_values(|a: Seq<char>| server_row(a, Some(uuid)));
                crate::text::lemma_filter_map_add(seq![fr], ms, f);
                crate::text::lemma_filter_map_single(fr, f);
                crate::text::lemma_filter_map_empty(ms, f);
                assert(seq![fr].filter_map(f) + ms.filter_map(f) =~= seq![fr]);
            },
            OutlineModel::Host { alias, group } => {
                let cur = entry_rows(es, c, es[k - 1]);
                crate::text::lemma_filter_map_empty(cur, f);
                assert(rows_upto(es, c, k - 1).filter_map(f) + Seq::<RowModel>::empty()
                    =~= rows_upto(es, c, k - 1).filter_map(f));
                assert(es.take(k - 1).filter_map(g) + Seq::<RowModel>::empty() =~= es.take(
                    k - 1,
                ).filter_map(g));
            },
        }
    }
}

proof fn lemma_rows_roots(es: Seq<OutlineModel>, c: Seq<Seq<char>>, k: int)
    requires
        0 <= k <= es.len(),
    ensures
        rows_upto(es, c, k).filter_map(|r: RowModel| root_pick(r)) == es.take(k).filter_map(
            |e: OutlineModel| top_row(es, c, e),
        ),
    decreases k,
{
    let f = |r: RowModel| root_pick(r);
    let g = |e: OutlineModel| top_row(es, c, e);
    if k == 0 {
        assert(es.take(0) =~= Seq::<OutlineModel>::empty());
        assert(rows_upto(es, c, 0).filter_map(f) =~= Seq::<RowModel>::empty());
        assert(es.take(0).filter_map(g) =~= Seq::<RowModel>::empty());
    } else {
        lemma_rows_roots(es, c, k - 1);
        lemma_rows_step(es, c, k, f, g);
        crate::text::lemma_filter_map_single(es[k - 1], g);
        let cur = entry_rows(es, c, es[k - 1]);
        match es[k - 1] {
            OutlineModel::Group { uuid, name } => {
                let fr = folder_row(uuid, name, c.contains(uuid));
                let ms = members(es, uuid).map_values(|a: Seq<char>| server_row(a, Some(uuid)));
                crate::text::lemma_filter_map_add(seq![fr], ms, f);
                crate::text::lemma_filter_map_single(fr, f);
                crate::text::lemma_filter_map_empty(ms, f);
                assert(seq![fr].filter_map(f) + ms.filter_map(f) =~= seq![fr]);
            },
            OutlineModel::Host { alias, group } => {
                if cur.len() == 0 {
                    assert(cur.filter_map(f) =~= Seq::<RowModel>::empty());
                    assert(rows_upto(es, c, k - 1).filter_map(f) + Seq::<RowModel>::empty()
                        =~= rows_upto(es, c, k - 1).filter_map(f));
                    assert(es.take(k - 1).filter_map(g) + Seq::<RowModel>::empty() =~= es.take(
                        k - 1,
                    ).filter_map(g));
                } else {
                    crate::text::lemma_filter_map_single(server_row(alias, None), f);
                }
            },
        }
    }
}

proof fn lemma_rows_children(es: Seq<OutlineModel>, c: Seq<Seq<char>>, u: Seq<char>, k0: int, m: int)
    requires
        0 <= k0 < es.len(),
        0 <= m <= es.len(),
        uuid_of_group(es[k0]) == Some(u),
        forall|j: int| 0 <= j < es.len() && j != k0 ==> #[trigger] uuid_of_group(es[j]) != Some(u),
    ensures
        rows_upto(es, c, m).filter_map(child_pick(u)) == if m > k0 {
            members(es, u).map_values(|a: Seq<char>| server_row(a, Some(u)))
        } else {
            Seq::<RowModel>::empty()
        },
    decreases m,
{
    let f = child_pick(u);
    if m == 0 {
        assert(rows_upto(es, c, 0).filter_map(f) =~= Seq::<RowModel>::empty());
    } else {
        lemma_rows_children(es, c, u, k0, m - 1);
        crate::text::lemma_filter_map_add(rows_upto(es, c, m - 1), entry_rows(es, c, es[m - 1]), f);
        let prev = rows_upto(es, c, m - 1).filter_map(f);
        let cur = entry_rows(es, c, es[m - 1]);
        match es[m - 1] {
            OutlineModel::Group { uuid, name } => {
                let fr = folder_row(uuid, name, c.contains(uuid));
                let ms = members(es, uuid).map_values(|a: Seq<char>| server_row(a, Some(uuid)));
                crate::text::lemma_filter_map_add(seq![fr], ms, f);
                crate::text::lemma_filter_map_single(fr, f);
                if m - 1 == k0 {
                    lemma_filter_map_keep_all(ms, f);
                    assert(prev =~= Seq::<RowModel>::empty());
                    assert(prev + (seq![fr].filter_map(f) + ms.filter_map(f)) =~= ms);
                } else {
                    assert(uuid_of_group(es[m - 1]) != Some(u));
                    crate::text::lemma_filter_map_empty(ms, f);
                    assert(prev + (seq![fr].filter_map(f) + ms.filter_map(f)) =~= prev);
                }
            },
            OutlineModel::Host { alias, group } => {
                crate::text::lemma_filter_map_empty(cur, f);
                assert(prev + cur.filter_map(f) =~= prev);
            },
        }
    }
}

/// The layout of the display tree, row by row:
/// - the folder rows are exactly one per group entry of the outline, in
///   document order, each collapsed exactly when its uuid is in
///   `collapsed`;
/// - the top-level rows are, in document order, the folders and the hosts
///   whose group is absent or not declared;
/// - under a group declared once, the rows are its hosts, in document order.
pub proof fn tree_layout(es: Seq<OutlineModel>, c: Seq<Seq<char>>)
    ensures
        tree_rows(es, c).filter_map(|r: RowModel| folder_pick(r)) == es.filter_map(
            |e: OutlineModel| group_folder(c, e),
        ),
        tree_rows(es, c).filter_map(|r: RowModel| root_pick(r)) == es.filter_map(
            |e: OutlineModel| top_row(es, c, e),
        ),
{
    lemma_rows_folders(es, c, es.len() as int);
    lemma_rows_roots(es, c, es.len() as int);
    assert(es.take(es.len() as int) =~= es);
}

/// Under the folder of a group declared once in the outline stand exactly
/// that group's hosts, in document order.
pub proof fn folder_children(es: Seq<OutlineModel>, c: Seq<Seq<char>>, k: int)
    requires
        0 <= k < es.len(),
        es[k] is Group,
        forall|j: int| 0 <= j < es.len() && j != k ==> #[trigger] uuid_of_group(es[j]) != uuid_of_group(es[k]),
    ensures
        ({
            let u = es[k]->Group_uuid;
            tree_rows(es, c).filter_map(child_pick(u)) == members(es, u).map_values(
                |a: Seq<char>| server_row(a, Some(u)),
            )
        }),
{
    lemma_rows_children(es, c, es[k]->Group_uuid, k, es.len() as int);
}

} // verus!
