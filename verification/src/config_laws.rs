//! What the editing operations of the config document promise when the
//! document is read back: a write is seen by the next read, and what an
//! operation is not about stays as it was.
use vstd::prelude::*;
use crate::config_model::{
    directive_line, directive_value, directive_values, drop_where, first_of, first_port,
    first_where, forward_keyword_of, forward_kind_of, forward_line, forward_of, forwards_of,
    fwd_pred, insert_index, keep_unless, keyword_at, kw_dynamic_forward, kw_hostname,
    kw_identity_file, kw_local_forward, kw_port, kw_proxy_jump, kw_pred, kw_remote_forward,
    kw_user, lemma_first_where, lemma_managed_keywords_distinct, sce_line, sce_value, sce_values,
    set_forwards_m, set_scalar_m, set_sce_m, tag_pred, BodyLineModel, SceKindTag, apply_core_m,
    host_view_of, port_text, CoreFieldsModel, HostModel, DocModel, ItemModel, HostViewModel,
    host_index, host_at, host_view_m, is_host_for, lemma_host_index, lemma_host_index_at,
    upsert_host_m, ensure_host_m, with_host, with_separator, new_host, set_host_sce_m,
    set_description_doc_m, set_description_m, description_of, remove_host_m, not_host_for,
    rename_host_m, renamed, create_group_m, groups_m, group_of_item, rename_group_m,
    marker_index, is_marker_for, lemma_marker_index, delete_group_m, group_remover, member_pred, host_aliases_m, alias_of_item, marker_line,
    outline_m, outline_of_item, OutlineModel, render_items, lemma_render_items_push, host_line,
};
use crate::text::{
    trim, trim_start, lead_ws, eq_ic, lemma_eq_ic_refl, lemma_eq_ic_sym, lemma_eq_ic_trans, lemma_filter_map_add,
    lemma_filter_map_empty, lemma_filter_map_single,
};
use crate::types::PortForwardKind;

verus! {

// ---------------------------------------------------------------------------
// Filtering sequences of body lines
// ---------------------------------------------------------------------------
proof fn lemma_fm_three<B>(a: Seq<BodyLineModel>, x: BodyLineModel, c: Seq<BodyLineModel>, g: spec_fn(BodyLineModel) -> Option<B>)
    ensures
        (a + seq![x] + c).filter_map(g) == a.filter_map(g) + seq![x].filter_map(g) + c.filter_map(g),
{
    lemma_filter_map_add(a + seq![x], c, g);
    lemma_filter_map_add(a, seq![x], g);
}

proof fn lemma_fm_split<B>(s: Seq<BodyLineModel>, i: int, g: spec_fn(BodyLineModel) -> Option<B>)
    requires
        0 <= i <= s.len(),
    ensures
        s.filter_map(g) == s.take(i).filter_map(g) + s.skip(i).filter_map(g),
{
    assert(s =~= s.take(i) + s.skip(i));
    lemma_filter_map_add(s.take(i), s.skip(i), g);
}

/// Dropping lines that `g` ignores does not change what `g` collects.
proof fn lemma_drop_where_keeps<B>(s: Seq<BodyLineModel>, p: spec_fn(BodyLineModel) -> bool, g: spec_fn(BodyLineModel) -> Option<B>)
    requires
        forall|l: BodyLineModel| p(l) ==> (#[trigger] g(l)) is None,
    ensures
        drop_where(s, p).filter_map(g) == s.filter_map(g),
    decreases s.len(),
{
    if s.len() > 0 {
        let s0 = s.drop_last();
        let x = s.last();
        lemma_drop_where_keeps(s0, p, g);
        assert(s =~= s0 + seq![x]);
        lemma_filter_map_add(s0, seq![x], keep_unless(p));
        lemma_filter_map_single(x, keep_unless(p));
        lemma_filter_map_add(s0, seq![x], g);
        lemma_filter_map_single(x, g);
        if p(x) {
            assert(drop_where(s, p) =~= drop_where(s0, p));
            assert(seq![x].filter_map(g) =~= Seq::<B>::empty());
            assert(s.filter_map(g) =~= s0.filter_map(g));
        } else {
            assert(drop_where(s, p) =~= drop_where(s0, p) + seq![x]);
            lemma_filter_map_add(drop_where(s0, p), seq![x], g);
        }
    }
}

/// Dropping every line `g` picks leaves `g` nothing to collect.
proof fn lemma_drop_where_clears<B>(s: Seq<BodyLineModel>, p: spec_fn(BodyLineModel) -> bool, g: spec_fn(BodyLineModel) -> Option<B>)
    requires
        forall|l: BodyLineModel| (#[trigger] g(l)) is Some ==> p(l),
    ensures
        drop_where(s, p).filter_map(g) == Seq::<B>::empty(),
    decreases s.len(),
{
    if s.len() > 0 {
        let s0 = s.drop_last();
        let x = s.last();
        lemma_drop_where_clears(s0, p, g);
        assert(s =~= s0 + seq![x]);
        lemma_filter_map_add(s0, seq![x], keep_unless(p));
        lemma_filter_map_single(x, keep_unless(p));
        if p(x) {
            assert(drop_where(s, p) =~= drop_where(s0, p));
        } else {
            assert(drop_where(s, p) =~= drop_where(s0, p) + seq![x]);
            lemma_filter_map_add(drop_where(s0, p), seq![x], g);
            lemma_filter_map_single(x, g);
            assert(drop_where(s, p).filter_map(g) =~= Seq::<B>::empty());
        }
    }
}

proof fn lemma_none_before<B>(s: Seq<BodyLineModel>, k: int, p: spec_fn(BodyLineModel) -> bool, g: spec_fn(BodyLineModel) -> Option<B>)
    requires
        0 <= k <= s.len(),
        forall|j: int| 0 <= j < k ==> !p(#[trigger] s[j]),
        forall|l: BodyLineModel| (#[trigger] g(l)) is Some ==> p(l),
    ensures
        s.take(k).filter_map(g) == Seq::<B>::empty(),
{
    assert forall|j: int| 0 <= j < s.take(k).len() implies (#[trigger] g(s.take(k)[j])) is None by {
        assert(s.take(k)[j] == s[j]);
        assert(!p(s[j]));
    }
    lemma_filter_map_empty(s.take(k), g);
}

// ---------------------------------------------------------------------------
// set_scalar_m
// ---------------------------------------------------------------------------
/// Setting a directive makes its value the first one of that keyword;
/// clearing it leaves none.
pub proof fn lemma_set_scalar_own(b: Seq<BodyLineModel>, ind: Seq<char>, kw: Seq<char>, v: Option<Seq<char>>)
    ensures
        v matches Some(x) ==> directive_values(set_scalar_m(b, ind, kw, v), kw).len() > 0
            && directive_values(set_scalar_m(b, ind, kw, v), kw)[0] == x,
        v is None ==> directive_values(set_scalar_m(b, ind, kw, v), kw).len() == 0,
{
    let g = |l: BodyLineModel| directive_value(l, kw);
    let p = kw_pred(kw);
    assert forall|l: BodyLineModel| (#[trigger] g(l)) is Some implies p(l) by {}
    match v {
        None => {
            lemma_drop_where_clears(b, p, g);
        },
        Some(x) => {
            lemma_first_where(b, p);
            match first_where(b, p) {
                Some(k) => {
                    let line = directive_line(ind, keyword_at(b[k]), x);
                    lemma_none_before(b, k, p, g);
                    lemma_fm_three(b.take(k), line, drop_where(b.skip(k + 1), p), g);
                    lemma_filter_map_single(line, g);
                    assert(p(b[k]));
                },
                None => {
                    let i = insert_index(b);
                    let line = directive_line(ind, kw, x);
                    lemma_eq_ic_refl(kw);
                    lemma_first_where(b, crate::config_model::sce_pred());
                    lemma_none_before(b, i, p, g);
                    lemma_fm_three(b.take(i), line, b.skip(i), g);
                    lemma_filter_map_single(line, g);
                },
            }
        },
    }
}

/// Setting or clearing a directive leaves alone what any reader that
/// ignores that keyword's lines collects.
pub proof fn lemma_set_scalar_keeps<B>(
    b: Seq<BodyLineModel>,
    ind: Seq<char>,
    kw: Seq<char>,
    v: Option<Seq<char>>,
    g: spec_fn(BodyLineModel) -> Option<B>,
)
    requires
        forall|l: BodyLineModel| directive_value(l, kw) is Some ==> (#[trigger] g(l)) is None,
    ensures
        set_scalar_m(b, ind, kw, v).filter_map(g) == b.filter_map(g),
{
    let p = kw_pred(kw);
    assert forall|l: BodyLineModel| p(l) implies (#[trigger] g(l)) is None by {}
    match v {
        None => {
            lemma_drop_where_keeps(b, p, g);
        },
        Some(x) => {
            lemma_first_where(b, p);
            match first_where(b, p) {
                Some(k) => {
                    let line = directive_line(ind, keyword_at(b[k]), x);
                    assert(p(b[k]));
                    assert(directive_value(line, kw) is Some);
                    assert(g(line) is None);
                    lemma_fm_three(b.take(k), line, drop_where(b.skip(k + 1), p), g);
                    lemma_filter_map_single(line, g);
                    lemma_drop_where_keeps(b.skip(k + 1), p, g);
                    assert(b =~= b.take(k) + seq![b[k]] + b.skip(k + 1));
                    lemma_fm_three(b.take(k), b[k], b.skip(k + 1), g);
                    lemma_filter_map_single(b[k], g);
                },
                None => {
                    let i = insert_index(b);
                    let line = directive_line(ind, kw, x);
                    lemma_eq_ic_refl(kw);
                    assert(g(line) is None);
                    lemma_first_where(b, crate::config_model::sce_pred());
                    lemma_fm_three(b.take(i), line, b.skip(i), g);
                    lemma_filter_map_single(line, g);
                    lemma_fm_split(b, i, g);
                },
            }
        },
    }
}

// ---------------------------------------------------------------------------
// set_forwards_m
// ---------------------------------------------------------------------------
proof fn lemma_forward_keyword_kind(k: PortForwardKind)
    ensures
        forward_kind_of(forward_keyword_of(k)) == Some(k),
{
    lemma_eq_ic_refl(forward_keyword_of(k));
    match k {
        PortForwardKind::Local => {},
        PortForwardKind::Remote => {
            assert(!eq_ic(kw_remote_forward(), kw_local_forward()));
        },
        PortForwardKind::Dynamic => {
            assert(!eq_ic(kw_dynamic_forward(), kw_local_forward()));
            assert(!eq_ic(kw_dynamic_forward(), kw_remote_forward()));
        },
    }
}

proof fn lemma_forward_lines(ind: Seq<char>, fs: Seq<(PortForwardKind, Seq<char>)>)
    ensures
        fs.map_values(|f: (PortForwardKind, Seq<char>)| forward_line(ind, f)).filter_map(
            |l: BodyLineModel| forward_of(l),
        ) == fs,
    decreases fs.len(),
{
    if fs.len() > 0 {
        let f0 = fs.drop_last();
        let x = fs.last();
        lemma_forward_lines(ind, f0);
        let m = |f: (PortForwardKind, Seq<char>)| forward_line(ind, f);
        assert(fs.map_values(m) =~= f0.map_values(m) + seq![forward_line(ind, x)]);
        lemma_filter_map_add(f0.map_values(m), seq![forward_line(ind, x)], |l: BodyLineModel| forward_of(l));
        lemma_filter_map_single(forward_line(ind, x), |l: BodyLineModel| forward_of(l));
        lemma_forward_keyword_kind(x.0);
        assert(fs =~= f0 + seq![x]);
    }
}

proof fn lemma_forward_lines_ignored<B>(ind: Seq<char>, fs: Seq<(PortForwardKind, Seq<char>)>, g: spec_fn(BodyLineModel) -> Option<B>)
    requires
        forall|l: BodyLineModel| forward_of(l) is Some ==> (#[trigger] g(l)) is None,
    ensures
        fs.map_values(|f: (PortForwardKind, Seq<char>)| forward_line(ind, f)).filter_map(g)
            == Seq::<B>::empty(),
{
    let lines = fs.map_values(|f: (PortForwardKind, Seq<char>)| forward_line(ind, f));
    assert forall|j: int| 0 <= j < lines.len() implies (#[trigger] g(lines[j])) is None by {
        lemma_forward_keyword_kind(fs[j].0);
        assert(forward_of(lines[j]) is Some);
    }
    lemma_filter_map_empty(lines, g);
}

/// Replacing the forwards makes them exactly the given list.
pub proof fn lemma_set_forwards_own(b: Seq<BodyLineModel>, ind: Seq<char>, fs: Seq<(PortForwardKind, Seq<char>)>)
    ensures
        forwards_of(set_forwards_m(b, ind, fs)) == fs,
{
    let g = |l: BodyLineModel| forward_of(l);
    let b1 = drop_where(b, fwd_pred());
    let i = insert_index(b1);
    let lines = fs.map_values(|f: (PortForwardKind, Seq<char>)| forward_line(ind, f));
    assert forall|l: BodyLineModel| (#[trigger] g(l)) is Some implies fwd_pred()(l) by {}
    lemma_drop_where_clears(b, fwd_pred(), g);
    lemma_first_where(b1, crate::config_model::sce_pred());
    lemma_fm_split(b1, i, g);
    lemma_filter_map_add(b1.take(i) + lines, b1.skip(i), g);
    lemma_filter_map_add(b1.take(i), lines, g);
    lemma_forward_lines(ind, fs);
    assert(b1.take(i).filter_map(g) + lines.filter_map(g) + b1.skip(i).filter_map(g) =~= fs);
}

/// Replacing the forwards leaves alone what any reader that ignores forward
/// lines collects.
pub proof fn lemma_set_forwards_keeps<B>(
    b: Seq<BodyLineModel>,
    ind: Seq<char>,
    fs: Seq<(PortForwardKind, Seq<char>)>,
    g: spec_fn(BodyLineModel) -> Option<B>,
)
    requires
        forall|l: BodyLineModel| forward_of(l) is Some ==> (#[trigger] g(l)) is None,
    ensures
        set_forwards_m(b, ind, fs).filter_map(g) == b.filter_map(g),
{
    let b1 = drop_where(b, fwd_pred());
    let i = insert_index(b1);
    let lines = fs.map_values(|f: (PortForwardKind, Seq<char>)| forward_line(ind, f));
    assert forall|l: BodyLineModel| fwd_pred()(l) implies (#[trigger] g(l)) is None by {}
    lemma_drop_where_keeps(b, fwd_pred(), g);
    lemma_first_where(b1, crate::config_model::sce_pred());
    lemma_fm_split(b1, i, g);
    lemma_filter_map_add(b1.take(i) + lines, b1.skip(i), g);
    lemma_filter_map_add(b1.take(i), lines, g);
    lemma_forward_lines_ignored(ind, fs, g);
    assert(b1.take(i).filter_map(g) + lines.filter_map(g) + b1.skip(i).filter_map(g) =~= b.filter_map(g));
}

// ---------------------------------------------------------------------------
// set_sce_m
// ---------------------------------------------------------------------------
/// Setting an SCE value makes it the first of its kind; clearing the only
/// line of a kind leaves none.
pub proof fn lemma_set_sce_own(b: Seq<BodyLineModel>, ind: Seq<char>, tag: SceKindTag, v: Option<Seq<char>>)
    ensures
        v matches Some(x) ==> first_of(sce_values(set_sce_m(b, ind, tag, v), tag)) == Some(x),
        v is None && sce_values(b, tag).len() <= 1 ==> sce_values(set_sce_m(b, ind, tag, v), tag).len() == 0,
{
    let g = |l: BodyLineModel| sce_value(l, tag);
    let p = tag_pred(tag);
    assert forall|l: BodyLineModel| (#[trigger] g(l)) is Some implies p(l) by {}
    lemma_first_where(b, p);
    match first_where(b, p) {
        Some(k) => {
            lemma_none_before(b, k, p, g);
            assert(b =~= b.take(k) + seq![b[k]] + b.skip(k + 1));
            lemma_fm_three(b.take(k), b[k], b.skip(k + 1), g);
            lemma_filter_map_single(b[k], g);
            match v {
                Some(x) => {
                    let line = sce_line(ind, tag, x);
                    assert(b.update(k, line) =~= b.take(k) + seq![line] + b.skip(k + 1));
                    lemma_fm_three(b.take(k), line, b.skip(k + 1), g);
                    lemma_filter_map_single(line, g);
                },
                None => {
                    assert(b.remove(k) =~= b.take(k) + b.skip(k + 1));
                    lemma_filter_map_add(b.take(k), b.skip(k + 1), g);
                },
            }
        },
        None => {
            lemma_none_before(b, b.len() as int, p, g);
            assert(b.take(b.len() as int) =~= b);
            match v {
                Some(x) => {
                    let line = sce_line(ind, tag, x);
                    assert(b.push(line) =~= b + seq![line]);
                    lemma_filter_map_add(b, seq![line], g);
                    lemma_filter_map_single(line, g);
                },
                None => {},
            }
        },
    }
}

/// Setting or clearing an SCE value leaves alone what any reader that
/// ignores that kind of line collects.
pub proof fn lemma_set_sce_keeps<B>(
    b: Seq<BodyLineModel>,
    ind: Seq<char>,
    tag: SceKindTag,
    v: Option<Seq<char>>,
    g: spec_fn(BodyLineModel) -> Option<B>,
)
    requires
        forall|l: BodyLineModel| sce_value(l, tag) is Some ==> (#[trigger] g(l)) is None,
    ensures
        set_sce_m(b, ind, tag, v).filter_map(g) == b.filter_map(g),
{
    let p = tag_pred(tag);
    lemma_first_where(b, p);
    match first_where(b, p) {
        Some(k) => {
            assert(b =~= b.take(k) + seq![b[k]] + b.skip(k + 1));
            lemma_fm_three(b.take(k), b[k], b.skip(k + 1), g);
            lemma_filter_map_single(b[k], g);
            assert(g(b[k]) is None);
            match v {
                Some(x) => {
                    let line = sce_line(ind, tag, x);
                    assert(g(line) is None);
                    assert(b.update(k, line) =~= b.take(k) + seq![line] + b.skip(k + 1));
                    lemma_fm_three(b.take(k), line, b.skip(k + 1), g);
                    lemma_filter_map_single(line, g);
                },
                None => {
                    assert(b.remove(k) =~= b.take(k) + b.skip(k + 1));
                    lemma_filter_map_add(b.take(k), b.skip(k + 1), g);
                },
            }
        },
        None => {
            match v {
                Some(x) => {
                    let line = sce_line(ind, tag, x);
                    assert(g(line) is None);
                    assert(b.push(line) =~= b + seq![line]);
                    lemma_filter_map_add(b, seq![line], g);
                    lemma_filter_map_single(line, g);
                },
                None => {},
            }
        },
    }
}

// ---------------------------------------------------------------------------
// Host blocks
// ---------------------------------------------------------------------------
/// Lines of a managed keyword carry no other managed keyword, no forward
/// and no SCE value.
proof fn lemma_orthogonal(kw: Seq<char>)
    requires
        kw == kw_hostname() || kw == kw_user() || kw == kw_port() || kw == kw_identity_file()
            || kw == kw_proxy_jump(),
    ensures
        kw != kw_hostname() ==> forall|l: BodyLineModel|
            directive_value(l, kw) is Some ==> (#[trigger] directive_value(l, kw_hostname())) is None,
        kw != kw_user() ==> forall|l: BodyLineModel|
            directive_value(l, kw) is Some ==> (#[trigger] directive_value(l, kw_user())) is None,
        kw != kw_port() ==> forall|l: BodyLineModel|
            directive_value(l, kw) is Some ==> (#[trigger] directive_value(l, kw_port())) is None,
        kw != kw_identity_file() ==> forall|l: BodyLineModel|
            directive_value(l, kw) is Some ==> (#[trigger] directive_value(l, kw_identity_file()))
                is None,
        kw != kw_proxy_jump() ==> forall|l: BodyLineModel|
            directive_value(l, kw) is Some ==> (#[trigger] directive_value(l, kw_proxy_jump()))
                is None,
        forall|l: BodyLineModel| directive_value(l, kw) is Some ==> (#[trigger] forward_of(l)) is None,
{
    let ks = seq![kw_hostname(), kw_user(), kw_port(), kw_identity_file(), kw_proxy_jump()];
    assert forall|j: int, l: BodyLineModel|
        0 <= j < 5 && ks[j] != kw && directive_value(l, kw) is Some implies (#[trigger] directive_value(
        l,
        ks[j],
    )) is None by {
        lemma_managed_keywords_distinct(keyword_at(l));
    }
    assert(ks[0] == kw_hostname() && ks[1] == kw_user() && ks[2] == kw_port() && ks[3]
        == kw_identity_file() && ks[4] == kw_proxy_jump());
    assert forall|l: BodyLineModel| directive_value(l, kw) is Some implies (#[trigger] forward_of(l)) is None by {
        lemma_managed_keywords_distinct(keyword_at(l));
    }
}

/// Forward lines carry no managed keyword.
proof fn lemma_forward_orthogonal()
    ensures
        forall|l: BodyLineModel| forward_of(l) is Some ==> (#[trigger] directive_value(l, kw_hostname())) is None,
        forall|l: BodyLineModel| forward_of(l) is Some ==> (#[trigger] directive_value(l, kw_user())) is None,
        forall|l: BodyLineModel| forward_of(l) is Some ==> (#[trigger] directive_value(l, kw_port())) is None,
        forall|l: BodyLineModel| forward_of(l) is Some ==> (#[trigger] directive_value(l, kw_identity_file())) is None,
        forall|l: BodyLineModel| forward_of(l) is Some ==> (#[trigger] directive_value(l, kw_proxy_jump())) is None,
{
    assert forall|l: BodyLineModel| forward_of(l) is Some implies {
        &&& directive_value(l, kw_hostname()) is None
        &&& directive_value(l, kw_user()) is None
        &&& directive_value(l, kw_port()) is None
        &&& directive_value(l, kw_identity_file()) is None
        &&& directive_value(l, kw_proxy_jump()) is None
    } by {
        lemma_managed_keywords_distinct(keyword_at(l));
    }
}

proof fn lemma_first_of_values(vs: Seq<Seq<char>>, v: Option<Seq<char>>)
    requires
        v matches Some(x) ==> vs.len() > 0 && vs[0] == x,
        v is None ==> vs.len() == 0,
    ensures
        first_of(vs) == v,
{
}

proof fn lemma_first_port_values(vs: Seq<Seq<char>>, p: Option<u16>)
    requires
        port_text(p) matches Some(x) ==> vs.len() > 0 && vs[0] == x,
        port_text(p) is None ==> vs.len() == 0,
    ensures
        first_port(vs) == p,
{
    if let Some(n) = p {
        crate::text::lemma_parse_dec_str(n);
    }
}

/// Applying the managed fields to a host block: reading it back gives
/// those fields, while its patterns, SCE metadata and description are
/// unchanged.
pub proof fn lemma_apply_core_view(h: HostModel, f: CoreFieldsModel)
    ensures
        host_view_of(apply_core_m(h, f)).hostname == f.hostname,
        host_view_of(apply_core_m(h, f)).user == f.user,
        host_view_of(apply_core_m(h, f)).port == f.port,
        host_view_of(apply_core_m(h, f)).identity_file == f.identity_file,
        host_view_of(apply_core_m(h, f)).proxy_jump == f.proxy_jump,
        host_view_of(apply_core_m(h, f)).forwards == f.forwards,
        host_view_of(apply_core_m(h, f)).patterns == host_view_of(h).patterns,
        host_view_of(apply_core_m(h, f)).group == host_view_of(h).group,
        host_view_of(apply_core_m(h, f)).icon == host_view_of(h).icon,
        host_view_of(apply_core_m(h, f)).color == host_view_of(h).color,
        host_view_of(apply_core_m(h, f)).description == host_view_of(h).description,
{
    let ind = h.indent;
    let b0 = h.body;
    let b1 = set_scalar_m(b0, ind, kw_hostname(), f.hostname);
    let b2 = set_scalar_m(b1, ind, kw_user(), f.user);
    let b3 = set_scalar_m(b2, ind, kw_port(), port_text(f.port));
    let b4 = set_scalar_m(b3, ind, kw_identity_file(), f.identity_file);
    let b5 = set_scalar_m(b4, ind, kw_proxy_jump(), f.proxy_jump);
    let b6 = set_forwards_m(b5, ind, f.forwards);
    assert(apply_core_m(h, f).body == b6);
    lemma_orthogonal(kw_hostname());
    lemma_orthogonal(kw_user());
    lemma_orthogonal(kw_port());
    lemma_orthogonal(kw_identity_file());
    lemma_orthogonal(kw_proxy_jump());
    lemma_forward_orthogonal();
    let dh = |l: BodyLineModel| directive_value(l, kw_hostname());
    let du = |l: BodyLineModel| directive_value(l, kw_user());
    let dp = |l: BodyLineModel| directive_value(l, kw_port());
    let di = |l: BodyLineModel| directive_value(l, kw_identity_file());
    let dj = |l: BodyLineModel| directive_value(l, kw_proxy_jump());
    // HostName
    lemma_set_scalar_own(b0, ind, kw_hostname(), f.hostname);
    lemma_set_scalar_keeps(b1, ind, kw_user(), f.user, dh);
    lemma_set_scalar_keeps(b2, ind, kw_port(), port_text(f.port), dh);
    lemma_set_scalar_keeps(b3, ind, kw_identity_file(), f.identity_file, dh);
    lemma_set_scalar_keeps(b4, ind, kw_proxy_jump(), f.proxy_jump, dh);
    lemma_set_forwards_keeps(b5, ind, f.forwards, dh);
    lemma_first_of_values(directive_values(b6, kw_hostname()), f.hostname);
    // User
    lemma_set_scalar_own(b1, ind, kw_user(), f.user);
    lemma_set_scalar_keeps(b2, ind, kw_port(), port_text(f.port), du);
    lemma_set_scalar_keeps(b3, ind, kw_identity_file(), f.identity_file, du);
    lemma_set_scalar_keeps(b4, ind, kw_proxy_jump(), f.proxy_jump, du);
    lemma_set_forwards_keeps(b5, ind, f.forwards, du);
    lemma_first_of_values(directive_values(b6, kw_user()), f.user);
    // Port
    lemma_set_scalar_own(b2, ind, kw_port(), port_text(f.port));
    lemma_set_scalar_keeps(b3, ind, kw_identity_file(), f.identity_file, dp);
    lemma_set_scalar_keeps(b4, ind, kw_proxy_jump(), f.proxy_jump, dp);
    lemma_set_forwards_keeps(b5, ind, f.forwards, dp);
    lemma_first_port_values(directive_values(b6, kw_port()), f.port);
    // IdentityFile
    lemma_set_scalar_own(b3, ind, kw_identity_file(), f.identity_file);
    lemma_set_scalar_keeps(b4, ind, kw_proxy_jump(), f.proxy_jump, di);
    lemma_set_forwards_keeps(b5, ind, f.forwards, di);
    lemma_first_of_values(directive_values(b6, kw_identity_file()), f.identity_file);
    // ProxyJump
    lemma_set_scalar_own(b4, ind, kw_proxy_jump(), f.proxy_jump);
    lemma_set_forwards_keeps(b5, ind, f.forwards, dj);
    lemma_first_of_values(directive_values(b6, kw_proxy_jump()), f.proxy_jump);
    // Forwards
    lemma_set_forwards_own(b5, ind, f.forwards);
    // SCE metadata
    lemma_sce_untouched(b0, ind, f, SceKindTag::Group);
    lemma_sce_untouched(b0, ind, f, SceKindTag::Icon);
    lemma_sce_untouched(b0, ind, f, SceKindTag::Tags);
}

proof fn lemma_sce_untouched(b0: Seq<BodyLineModel>, ind: Seq<char>, f: CoreFieldsModel, tag: SceKindTag)
    ensures
        sce_values(
            set_forwards_m(
                set_scalar_m(
                    set_scalar_m(
                        set_scalar_m(
                            set_scalar_m(
                                set_scalar_m(b0, ind, kw_hostname(), f.hostname),
                                ind,
                                kw_user(),
                                f.user,
                            ),
                            ind,
                            kw_port(),
                            port_text(f.port),
                        ),
                        ind,
                        kw_identity_file(),
                        f.identity_file,
                    ),
                    ind,
                    kw_proxy_jump(),
                    f.proxy_jump,
                ),
                ind,
                f.forwards,
            ),
            tag,
        ) == sce_values(b0, tag),
{
    let g = |l: BodyLineModel| sce_value(l, tag);
    let b1 = set_scalar_m(b0, ind, kw_hostname(), f.hostname);
    let b2 = set_scalar_m(b1, ind, kw_user(), f.user);
    let b3 = set_scalar_m(b2, ind, kw_port(), port_text(f.port));
    let b4 = set_scalar_m(b3, ind, kw_identity_file(), f.identity_file);
    let b5 = set_scalar_m(b4, ind, kw_proxy_jump(), f.proxy_jump);
    lemma_set_scalar_keeps(b0, ind, kw_hostname(), f.hostname, g);
    lemma_set_scalar_keeps(b1, ind, kw_user(), f.user, g);
    lemma_set_scalar_keeps(b2, ind, kw_port(), port_text(f.port), g);
    lemma_set_scalar_keeps(b3, ind, kw_identity_file(), f.identity_file, g);
    lemma_set_scalar_keeps(b4, ind, kw_proxy_jump(), f.proxy_jump, g);
    lemma_set_forwards_keeps(b5, ind, f.forwards, g);
}

// ---------------------------------------------------------------------------
// Documents
// ---------------------------------------------------------------------------
proof fn lemma_host_index_kept(items: Seq<ItemModel>, i: int, h: HostModel, alias: Seq<char>)
    requires
        host_index(items, alias) == Some(i),
        h.patterns == host_at(items, i).patterns,
    ensures
        host_index(items.update(i, ItemModel::Host(h)), alias) == Some(i),
        host_at(items.update(i, ItemModel::Host(h)), i) == h,
{
    lemma_host_index(items, alias);
    let it2 = items.update(i, ItemModel::Host(h));
    assert forall|j: int| 0 <= j < i implies !is_host_for(#[trigger] it2[j], alias) by {
        assert(it2[j] == items[j]);
    }
    lemma_host_index_at(it2, alias, i);
}

/// The index of the host that `upsert_host` edits.
proof fn lemma_ensure_host(d: DocModel, alias: Seq<char>)
    ensures
        host_index(ensure_host_m(d, alias).items, alias) matches Some(i) && (host_index(d.items, alias)
            matches Some(k) ==> i == k && ensure_host_m(d, alias) == d) && (host_index(d.items, alias)
            is None ==> host_at(ensure_host_m(d, alias).items, i) == new_host(alias, d.default_indent)),
{
    lemma_host_index(d.items, alias);
    if host_index(d.items, alias) is None {
        let d1 = ensure_host_m(d, alias);
        let n = d1.items.len() - 1;
        assert forall|j: int| 0 <= j < n implies !is_host_for(#[trigger] d1.items[j], alias) by {
            if j < d.items.len() {
                assert(d1.items[j] == d.items[j]);
            }
        }
        assert(new_host(alias, d.default_indent).patterns[0] == alias);
        lemma_host_index_at(d1.items, alias, n);
    }
}

/// After `upsert_host`, reading the host back gives exactly the managed
/// fields that were written; its patterns, SCE metadata and description are
/// what they were before, or empty for a host the call created.
pub proof fn upsert_then_read(d: DocModel, alias: Seq<char>, f: CoreFieldsModel)
    ensures
        host_view_m(upsert_host_m(d, alias, f), alias) matches Some(v) && v.hostname == f.hostname
            && v.user == f.user && v.port == f.port && v.identity_file == f.identity_file
            && v.proxy_jump == f.proxy_jump && v.forwards == f.forwards && match host_view_m(d, alias) {
            Some(o) => v.patterns == o.patterns && v.group == o.group && v.icon == o.icon && v.color
                == o.color && v.description == o.description,
            None => v.patterns == seq![alias] && v.group is None && v.icon is None && v.color is None
                && v.description is None,
        },
{
    lemma_ensure_host(d, alias);
    let d1 = ensure_host_m(d, alias);
    let i = host_index(d1.items, alias)->0;
    let h = host_at(d1.items, i);
    lemma_apply_core_view(h, f);
    lemma_host_index_kept(d1.items, i, apply_core_m(h, f), alias);
    if host_index(d.items, alias) is None {
        let nh = new_host(alias, d.default_indent);
        assert(sce_values(nh.body, SceKindTag::Group) =~= Seq::<Seq<char>>::empty());
        assert(sce_values(nh.body, SceKindTag::Icon) =~= Seq::<Seq<char>>::empty());
        assert(sce_values(nh.body, SceKindTag::Tags) =~= Seq::<Seq<char>>::empty());
    }
}

/// A keyword the editor does not manage: none of `HostName`, `User`,
/// `Port`, `IdentityFile`, `ProxyJump` or the forward keywords, in any case.
pub open spec fn unmanaged_keyword(kw: Seq<char>) -> bool {
    &&& !eq_ic(kw, kw_hostname())
    &&& !eq_ic(kw, kw_user())
    &&& !eq_ic(kw, kw_port())
    &&& !eq_ic(kw, kw_identity_file())
    &&& !eq_ic(kw, kw_proxy_jump())
    &&& forward_kind_of(kw) is None
}

proof fn lemma_unmanaged_orthogonal(kw: Seq<char>, m: Seq<char>)
    requires
        unmanaged_keyword(kw),
        m == kw_hostname() || m == kw_user() || m == kw_port() || m == kw_identity_file() || m
            == kw_proxy_jump(),
    ensures
        forall|l: BodyLineModel| directive_value(l, m) is Some ==> (#[trigger] directive_value(l, kw)) is None,
        forall|l: BodyLineModel| forward_of(l) is Some ==> (#[trigger] directive_value(l, kw)) is None,
{
    assert forall|l: BodyLineModel| directive_value(l, m) is Some implies (#[trigger] directive_value(l, kw)) is None by {
        let k = keyword_at(l);
        if eq_ic(k, kw) {
            lemma_eq_ic_sym(k, kw);
            lemma_eq_ic_trans(kw, k, m);
        }
    }
    assert forall|l: BodyLineModel| forward_of(l) is Some implies (#[trigger] directive_value(l, kw)) is None by {
        let k = keyword_at(l);
        if eq_ic(k, kw) {
            lemma_eq_ic_sym(k, kw);
            if eq_ic(k, kw_local_forward()) {
                lemma_eq_ic_trans(kw, k, kw_local_forward());
            } else if eq_ic(k, kw_remote_forward()) {
                lemma_eq_ic_trans(kw, k, kw_remote_forward());
            } else {
                lemma_eq_ic_trans(kw, k, kw_dynamic_forward());
            }
        }
    }
}

/// The comment and blank lines inside a host body, in order.
pub open spec fn raw_lines(body: Seq<BodyLineModel>) -> Seq<Seq<char>> {
    body.filter_map(|l: BodyLineModel| raw_text(l))
}

pub open spec fn raw_text(l: BodyLineModel) -> Option<Seq<char>> {
    match l {
        BodyLineModel::Raw(s) => Some(s),
        _ => None,
    }
}

/// The SCE metadata lines of a host body, verbatim, in order.
pub open spec fn sce_lines(body: Seq<BodyLineModel>) -> Seq<Seq<char>> {
    body.filter_map(|l: BodyLineModel| sce_text(l))
}

pub open spec fn sce_text(l: BodyLineModel) -> Option<Seq<char>> {
    match l {
        BodyLineModel::Sce { raw, .. } => Some(raw),
        _ => None,
    }
}

/// `upsert_host` on an existing host changes nothing but that host, and in
/// it the comments above and inside the block, the `Host` line, the SCE
/// metadata lines and every directive the editor does not manage stay as
/// they were.
pub proof fn upsert_keeps_the_rest(d: DocModel, alias: Seq<char>, f: CoreFieldsModel, kw: Seq<char>)
    requires
        host_index(d.items, alias) is Some,
        unmanaged_keyword(kw),
    ensures
        ({
            let i = host_index(d.items, alias)->0;
            let d2 = upsert_host_m(d, alias, f);
            let h = host_at(d.items, i);
            let h2 = host_at(d2.items, i);
            &&& d2.items.len() == d.items.len()
            &&& forall|j: int| 0 <= j < d.items.len() && j != i ==> d2.items[j] == d.items[j]
            &&& h2.leading_comments == h.leading_comments
            &&& h2.raw_host_line == h.raw_host_line
            &&& h2.patterns == h.patterns
            &&& raw_lines(h2.body) == raw_lines(h.body)
            &&& sce_lines(h2.body) == sce_lines(h.body)
            &&& directive_values(h2.body, kw) == directive_values(h.body, kw)
        }),
{
    lemma_ensure_host(d, alias);
    let i = host_index(d.items, alias)->0;
    let h = host_at(d.items, i);
    let ind = h.indent;
    let g = |l: BodyLineModel| directive_value(l, kw);
    let b0 = h.body;
    let b1 = set_scalar_m(b0, ind, kw_hostname(), f.hostname);
    let b2 = set_scalar_m(b1, ind, kw_user(), f.user);
    let b3 = set_scalar_m(b2, ind, kw_port(), port_text(f.port));
    let b4 = set_scalar_m(b3, ind, kw_identity_file(), f.identity_file);
    let b5 = set_scalar_m(b4, ind, kw_proxy_jump(), f.proxy_jump);
    lemma_unmanaged_orthogonal(kw, kw_hostname());
    lemma_unmanaged_orthogonal(kw, kw_user());
    lemma_unmanaged_orthogonal(kw, kw_port());
    lemma_unmanaged_orthogonal(kw, kw_identity_file());
    lemma_unmanaged_orthogonal(kw, kw_proxy_jump());
    lemma_set_scalar_keeps(b0, ind, kw_hostname(), f.hostname, g);
    lemma_set_scalar_keeps(b1, ind, kw_user(), f.user, g);
    lemma_set_scalar_keeps(b2, ind, kw_port(), port_text(f.port), g);
    lemma_set_scalar_keeps(b3, ind, kw_identity_file(), f.identity_file, g);
    lemma_set_scalar_keeps(b4, ind, kw_proxy_jump(), f.proxy_jump, g);
    lemma_set_forwards_keeps(b5, ind, f.forwards, g);
    let gr = |l: BodyLineModel| raw_text(l);
    lemma_set_scalar_keeps(b0, ind, kw_hostname(), f.hostname, gr);
    lemma_set_scalar_keeps(b1, ind, kw_user(), f.user, gr);
    lemma_set_scalar_keeps(b2, ind, kw_port(), port_text(f.port), gr);
    lemma_set_scalar_keeps(b3, ind, kw_identity_file(), f.identity_file, gr);
    lemma_set_scalar_keeps(b4, ind, kw_proxy_jump(), f.proxy_jump, gr);
    lemma_set_forwards_keeps(b5, ind, f.forwards, gr);
    let gs = |l: BodyLineModel| sce_text(l);
    lemma_set_scalar_keeps(b0, ind, kw_hostname(), f.hostname, gs);
    lemma_set_scalar_keeps(b1, ind, kw_user(), f.user, gs);
    lemma_set_scalar_keeps(b2, ind, kw_port(), port_text(f.port), gs);
    lemma_set_scalar_keeps(b3, ind, kw_identity_file(), f.identity_file, gs);
    lemma_set_scalar_keeps(b4, ind, kw_proxy_jump(), f.proxy_jump, gs);
    lemma_set_forwards_keeps(b5, ind, f.forwards, gs);
    assert(apply_core_m(h, f).body == set_forwards_m(b5, ind, f.forwards));
    lemma_host_index_kept(d.items, i, apply_core_m(h, f), alias);
    assert(ensure_host_m(d, alias) == d);
    lemma_host_index(d.items, alias);
    let d2 = upsert_host_m(d, alias, f);
    assert(d2 == with_host(d, i, apply_core_m(h, f)));
    assert(d2.items.len() == d.items.len());
    assert(host_at(d2.items, i) == apply_core_m(h, f));
    assert(directive_values(host_at(d2.items, i).body, kw) == directive_values(h.body, kw));
}

/// The SCE field of a decoded host that a tag names.
pub open spec fn sce_field(v: HostViewModel, tag: SceKindTag) -> Option<Seq<char>> {
    match tag {
        SceKindTag::Group => v.group,
        SceKindTag::Icon => v.icon,
        SceKindTag::Tags => v.color,
    }
}

/// A decoded host with one SCE field replaced.
pub open spec fn with_sce_field(v: HostViewModel, tag: SceKindTag, x: Option<Seq<char>>) -> HostViewModel {
    match tag {
        SceKindTag::Group => HostViewModel { group: x, ..v },
        SceKindTag::Icon => HostViewModel { icon: x, ..v },
        SceKindTag::Tags => HostViewModel { color: x, ..v },
    }
}

/// Setting a host's group, icon or color: reading the host back gives the
/// value set, and every other field as it was. Clearing it reads back as
/// none when the host had at most one line of that kind.
pub proof fn set_sce_then_read(d: DocModel, alias: Seq<char>, tag: SceKindTag, v: Option<Seq<char>>)
    requires
        host_index(d.items, alias) is Some,
    ensures
        ({
            let o = host_view_m(d, alias)->0;
            let h = host_at(d.items, host_index(d.items, alias)->0);
            host_view_m(set_host_sce_m(d, alias, tag, v), alias) matches Some(w) && w
                == with_sce_field(o, tag, sce_field(w, tag)) && (v is Some ==> sce_field(w, tag) == v)
                && (v is None && sce_values(h.body, tag).len() <= 1 ==> sce_field(w, tag) is None)
        }),
{
    let i = host_index(d.items, alias)->0;
    let h = host_at(d.items, i);
    let b = h.body;
    let ind = h.indent;
    let h2 = HostModel { body: set_sce_m(b, ind, tag, v), ..h };
    lemma_host_index(d.items, alias);
    lemma_host_index_kept(d.items, i, h2, alias);
    lemma_set_sce_own(b, ind, tag, v);
    assert forall|l: BodyLineModel| sce_value(l, tag) is Some implies {
        &&& (#[trigger] directive_value(l, kw_hostname())) is None
        &&& directive_value(l, kw_user()) is None
        &&& directive_value(l, kw_port()) is None
        &&& directive_value(l, kw_identity_file()) is None
        &&& directive_value(l, kw_proxy_jump()) is None
    } by {}
    assert forall|l: BodyLineModel| sce_value(l, tag) is Some implies (#[trigger] directive_value(l, kw_user())) is None by {}
    assert forall|l: BodyLineModel| sce_value(l, tag) is Some implies (#[trigger] directive_value(l, kw_port())) is None by {}
    assert forall|l: BodyLineModel| sce_value(l, tag) is Some implies (#[trigger] directive_value(l, kw_identity_file())) is None by {}
    assert forall|l: BodyLineModel| sce_value(l, tag) is Some implies (#[trigger] directive_value(l, kw_proxy_jump())) is None by {}
    assert forall|l: BodyLineModel| sce_value(l, tag) is Some implies (#[trigger] forward_of(l)) is None by {}
    lemma_set_sce_keeps(b, ind, tag, v, |l: BodyLineModel| directive_value(l, kw_hostname()));
    lemma_set_sce_keeps(b, ind, tag, v, |l: BodyLineModel| directive_value(l, kw_user()));
    lemma_set_sce_keeps(b, ind, tag, v, |l: BodyLineModel| directive_value(l, kw_port()));
    lemma_set_sce_keeps(b, ind, tag, v, |l: BodyLineModel| directive_value(l, kw_identity_file()));
    lemma_set_sce_keeps(b, ind, tag, v, |l: BodyLineModel| directive_value(l, kw_proxy_jump()));
    lemma_set_sce_keeps(b, ind, tag, v, |l: BodyLineModel| forward_of(l));
    if tag != SceKindTag::Group {
        assert forall|l: BodyLineModel| sce_value(l, tag) is Some implies (#[trigger] sce_value(l, SceKindTag::Group)) is None by {}
        lemma_set_sce_keeps(b, ind, tag, v, |l: BodyLineModel| sce_value(l, SceKindTag::Group));
    }
    if tag != SceKindTag::Icon {
        assert forall|l: BodyLineModel| sce_value(l, tag) is Some implies (#[trigger] sce_value(l, SceKindTag::Icon)) is None by {}
        lemma_set_sce_keeps(b, ind, tag, v, |l: BodyLineModel| sce_value(l, SceKindTag::Icon));
    }
    if tag != SceKindTag::Tags {
        assert forall|l: BodyLineModel| sce_value(l, tag) is Some implies (#[trigger] sce_value(l, SceKindTag::Tags)) is None by {}
        lemma_set_sce_keeps(b, ind, tag, v, |l: BodyLineModel| sce_value(l, SceKindTag::Tags));
    }
}

proof fn lemma_trim_space_prefix(t: Seq<char>)
    ensures
        trim_start(seq![' '] + t) == trim_start(t),
{
    let s = seq![' '] + t;
    assert(s.drop_first() =~= t);
    assert(lead_ws(s) == 1 + lead_ws(t));
    crate::text::lemma_lead_ws_bound(t);
    assert(s.skip(lead_ws(s) as int) =~= t.skip(lead_ws(t) as int));
}

proof fn lemma_description_line(t: Seq<char>)
    ensures
        description_of(seq!['#', ' '] + t) == trim(t),
{
    let c = seq!['#', ' '] + t;
    assert(lead_ws(c) == 0);
    assert(trim_start(c) =~= c);
    assert(c.drop_first() =~= seq![' '] + t);
    assert(crate::config_model::lead_hashes(seq![' '] + t) == 0);
    assert(crate::config_model::lead_hashes(c) == 1);
    assert(c.skip(1) =~= seq![' '] + t);
    lemma_trim_space_prefix(t);
}

/// Setting a host's description: reading the host back gives the trimmed
/// text, and every other field as it was. Clearing it reads back as none
/// when the host had at most one comment line above it.
pub proof fn set_description_then_read(d: DocModel, alias: Seq<char>, text: Option<Seq<char>>)
    requires
        host_index(d.items, alias) is Some,
    ensures
        ({
            let o = host_view_m(d, alias)->0;
            let h = host_at(d.items, host_index(d.items, alias)->0);
            host_view_m(set_description_doc_m(d, alias, text), alias) matches Some(w) && w
                == (HostViewModel { description: w.description, ..o }) && (text matches Some(t)
                ==> w.description == Some(trim(t))) && (text is None && h.leading_comments.len()
                <= 1 ==> w.description is None)
        }),
{
    let i = host_index(d.items, alias)->0;
    let h = host_at(d.items, i);
    let h2 = HostModel { leading_comments: set_description_m(h.leading_comments, text), ..h };
    lemma_host_index(d.items, alias);
    lemma_host_index_kept(d.items, i, h2, alias);
    if let Some(t) = text {
        lemma_description_line(t);
        let l = h.leading_comments;
        if l.len() > 0 {
            assert(l.update(l.len() - 1, seq!['#', ' '] + t).last() == seq!['#', ' '] + t);
        }
    }
}

proof fn lemma_filter_map_all<A, B>(s: Seq<A>, f: spec_fn(A) -> Option<B>, q: spec_fn(B) -> bool)
    requires
        forall|j: int| 0 <= j < s.len() ==> (f(#[trigger] s[j]) matches Some(y) ==> q(y)),
    ensures
        forall|k: int| 0 <= k < s.filter_map(f).len() ==> q(#[trigger] s.filter_map(f)[k]),
    decreases s.len(),
{
    if s.len() > 0 {
        let s0 = s.drop_last();
        assert forall|j: int| 0 <= j < s0.len() implies (f(#[trigger] s0[j]) matches Some(y) ==> q(y)) by {
            assert(s0[j] == s[j]);
        }
        lemma_filter_map_all(s0, f, q);
        assert(s =~= s0 + seq![s.last()]);
        lemma_filter_map_add(s0, seq![s.last()], f);
        lemma_filter_map_single(s.last(), f);
        assert(f(s[s.len() - 1]) matches Some(y) ==> q(y));
    }
}

/// After `remove_host`, no host answers to the alias any more.
pub proof fn remove_then_read(d: DocModel, alias: Seq<char>)
    ensures
        host_view_m(remove_host_m(d, alias), alias) is None,
{
    let f = not_host_for(alias);
    let q = |it: ItemModel| !is_host_for(it, alias);
    lemma_filter_map_all(d.items, f, q);
    let items = d.items.filter_map(f);
    assert forall|j: int| 0 <= j < items.len() implies !is_host_for(#[trigger] items[j], alias) by {
        assert(q(items[j]));
    }
    lemma_host_index_at(items, alias, items.len() as int);
}

/// After a successful `rename_host`, the host answers to the new alias.
pub proof fn rename_then_read(d: DocModel, from: Seq<char>, to: Seq<char>)
    requires
        host_index(d.items, from) is Some,
    ensures
        host_view_m(rename_host_m(d, from, to), to) is Some,
{
    lemma_host_index(d.items, from);
    let i = host_index(d.items, from)->0;
    let h = host_at(d.items, i);
    let ps = renamed(h.patterns, from, to);
    let items = rename_host_m(d, from, to).items;
    let k = choose|k: int| 0 <= k < h.patterns.len() && h.patterns[k] == from;
    assert(ps[k] == to);
    assert(is_host_for(items[i], to));
    lemma_host_index(items, to);
}

/// Creating a group adds it, with its name, at the end of the group list,
/// keeps every host alias, and puts its marker line
/// `#SCE_GROUP:<uuid>:::<name>` in the text.
pub proof fn create_then_groups(d: DocModel, uuid: Seq<char>, name: Seq<char>)
    ensures
        groups_m(create_group_m(d, uuid, name).items) == groups_m(d.items).push((uuid, name)),
        host_aliases_m(create_group_m(d, uuid, name).items) == host_aliases_m(d.items),
        render_items(create_group_m(d, uuid, name).items).contains(marker_line(uuid, name)),
{
    let g = |it: ItemModel| group_of_item(it);
    let al = |it: ItemModel| alias_of_item(it);
    let a = with_separator(d.items);
    let marker = ItemModel::GroupMarker { uuid, name, raw: marker_line(uuid, name) };
    let blank = ItemModel::Blank(seq![]);
    assert(a.push(marker).push(blank) =~= a + seq![marker] + seq![blank]);
    lemma_filter_map_add(a + seq![marker], seq![blank], g);
    lemma_filter_map_add(a, seq![marker], g);
    lemma_filter_map_single(marker, g);
    lemma_filter_map_single(blank, g);
    lemma_filter_map_add(a + seq![marker], seq![blank], al);
    lemma_filter_map_add(a, seq![marker], al);
    lemma_filter_map_single(marker, al);
    lemma_filter_map_single(blank, al);
    if a != d.items {
        assert(a =~= d.items + seq![blank]);
        lemma_filter_map_add(d.items, seq![blank], g);
        lemma_filter_map_add(d.items, seq![blank], al);
    }
    assert(a.filter_map(al) + Seq::<Seq<char>>::empty() =~= a.filter_map(al));
    assert(d.items.filter_map(al) + Seq::<Seq<char>>::empty() =~= d.items.filter_map(al));
    lemma_render_items_push(a, marker);
    lemma_render_items_push(a.push(marker), blank);
    let r = render_items(a.push(marker).push(blank));
    assert(r[render_items(a).len() as int] == marker_line(uuid, name));
}

/// After a successful `rename_group`, the group list holds the group under
/// its new name.
pub proof fn rename_then_groups(d: DocModel, uuid: Seq<char>, name: Seq<char>)
    requires
        marker_index(d.items, uuid) is Some,
    ensures
        groups_m(rename_group_m(d, uuid, name).items).contains((uuid, name)),
{
    lemma_marker_index(d.items, uuid);
    let i = marker_index(d.items, uuid)->0;
    let g = |it: ItemModel| group_of_item(it);
    let marker = ItemModel::GroupMarker { uuid, name, raw: marker_line(uuid, name) };
    let items = d.items.update(i, marker);
    assert(items =~= d.items.take(i) + seq![marker] + d.items.skip(i + 1));
    lemma_filter_map_add(d.items.take(i) + seq![marker], d.items.skip(i + 1), g);
    lemma_filter_map_add(d.items.take(i), seq![marker], g);
    lemma_filter_map_single(marker, g);
    let gs = items.filter_map(g);
    assert(gs[d.items.take(i).filter_map(g).len() as int] == (uuid, name));
}

/// Filtering with `f` and then `g` is filtering with their composition `h`.
proof fn lemma_filter_map_chain<A, B, C>(
    s: Seq<A>,
    f: spec_fn(A) -> Option<B>,
    g: spec_fn(B) -> Option<C>,
    h: spec_fn(A) -> Option<C>,
)
    requires
        forall|x: A| (match #[trigger] f(x) {
            Some(y) => g(y),
            None => None,
        }) == h(x),
    ensures
        s.filter_map(f).filter_map(g) == s.filter_map(h),
    decreases s.len(),
{
    if s.len() > 0 {
        let s0 = s.drop_last();
        let x = s.last();
        lemma_filter_map_chain(s0, f, g, h);
        assert(s =~= s0 + seq![x]);
        lemma_filter_map_add(s0, seq![x], f);
        lemma_filter_map_single(x, f);
        lemma_filter_map_add(s0, seq![x], h);
        lemma_filter_map_single(x, h);
        match f(x) {
            Some(y) => {
                lemma_filter_map_add(s0.filter_map(f), seq![y], g);
                lemma_filter_map_single(y, g);
            },
            None => {
                assert(s0.filter_map(f) + Seq::<B>::empty() =~= s0.filter_map(f));
            },
        }
    }
}

/// Replacing one element by another that `f` maps alike leaves what `f`
/// collects unchanged.
proof fn lemma_filter_map_update_same<A, B>(s: Seq<A>, i: int, x: A, f: spec_fn(A) -> Option<B>)
    requires
        0 <= i < s.len(),
        f(s[i]) == f(x),
    ensures
        s.update(i, x).filter_map(f) == s.filter_map(f),
{
    let a = s.take(i);
    let c = s.skip(i + 1);
    assert(s =~= a + seq![s[i]] + c);
    assert(s.update(i, x) =~= a + seq![x] + c);
    lemma_filter_map_add(a + seq![s[i]], c, f);
    lemma_filter_map_add(a, seq![s[i]], f);
    lemma_filter_map_add(a + seq![x], c, f);
    lemma_filter_map_add(a, seq![x], f);
    lemma_filter_map_single(s[i], f);
    lemma_filter_map_single(x, f);
}

/// Replacing one element that `f` keeps by another that `f` keeps replaces
/// one collected value, at the position of the element among the kept ones.
proof fn lemma_filter_map_update_at<A, B>(s: Seq<A>, i: int, x: A, f: spec_fn(A) -> Option<B>)
    requires
        0 <= i < s.len(),
        f(s[i]) is Some,
        f(x) is Some,
    ensures
        ({
            let k = s.take(i).filter_map(f).len() as int;
            &&& k < s.filter_map(f).len()
            &&& s.filter_map(f)[k] == f(s[i])->0
            &&& s.update(i, x).filter_map(f) == s.filter_map(f).update(k, f(x)->0)
        }),
{
    let a = s.take(i);
    let c = s.skip(i + 1);
    assert(s =~= a + seq![s[i]] + c);
    assert(s.update(i, x) =~= a + seq![x] + c);
    lemma_filter_map_add(a + seq![s[i]], c, f);
    lemma_filter_map_add(a, seq![s[i]], f);
    lemma_filter_map_add(a + seq![x], c, f);
    lemma_filter_map_add(a, seq![x], f);
    lemma_filter_map_single(s[i], f);
    lemma_filter_map_single(x, f);
    let k = a.filter_map(f).len() as int;
    assert(s.update(i, x).filter_map(f) =~= s.filter_map(f).update(k, f(x)->0));
}

/// Replacing an item that is no host for `alias` by another such item
/// leaves the host found for `alias` as it was.
proof fn lemma_host_index_update_non_host(items: Seq<ItemModel>, i: int, x: ItemModel, alias: Seq<char>)
    requires
        0 <= i < items.len(),
        !is_host_for(items[i], alias),
        !is_host_for(x, alias),
    ensures
        host_index(items.update(i, x), alias) == host_index(items, alias),
        host_index(items, alias) matches Some(k) ==> host_at(items.update(i, x), k) == host_at(
            items,
            k,
        ),
{
    let it2 = items.update(i, x);
    lemma_host_index(items, alias);
    match host_index(items, alias) {
        Some(k) => {
            assert forall|j: int| 0 <= j < k implies !is_host_for(#[trigger] it2[j], alias) by {
                if j != i {
                    assert(it2[j] == items[j]);
                }
            }
            assert(it2[k] == items[k]);
            lemma_host_index_at(it2, alias, k);
        },
        None => {
            assert forall|j: int| 0 <= j < it2.len() implies !is_host_for(#[trigger] it2[j], alias) by {
                if j != i {
                    assert(it2[j] == items[j]);
                }
            }
            lemma_host_index_at(it2, alias, it2.len() as int);
        },
    }
}

/// Whether an item is a host none of whose lines puts it in the group.
pub open spec fn not_in_group(it: ItemModel, uuid: Seq<char>) -> bool {
    it matches ItemModel::Host(h) ==> forall|j: int|
        0 <= j < h.body.len() ==> sce_value(#[trigger] h.body[j], SceKindTag::Group) != Some(uuid)
}

/// Deleting a group removes it from the group list, keeps every host (the
/// host aliases are unchanged) and leaves no host in that group.
pub proof fn delete_then_read(d: DocModel, uuid: Seq<char>, alias: Seq<char>)
    ensures
        forall|k: int| 0 <= k < groups_m(delete_group_m(d, uuid).items).len() ==> (#[trigger] groups_m(
            delete_group_m(d, uuid).items,
        )[k]).0 != uuid,
        host_aliases_m(delete_group_m(d, uuid).items) == host_aliases_m(d.items),
        host_view_m(delete_group_m(d, uuid), alias) matches Some(w) ==> w.group != Some(uuid),
{
    let f = group_remover(uuid);
    let items = d.items.filter_map(f);
    // The group list.
    lemma_filter_map_chain(d.items, f, |it: ItemModel| alias_of_item(it), |it: ItemModel| alias_of_item(it));
    lemma_filter_map_all(d.items, f, |it: ItemModel| !is_marker_for(it, uuid));
    lemma_filter_map_all(items, |it: ItemModel| group_of_item(it), |p: (Seq<char>, Seq<char>)| p.0 != uuid);
    // The host in that group.
    let q = |it: ItemModel| not_in_group(it, uuid);
    assert forall|j: int| 0 <= j < d.items.len() implies (f(#[trigger] d.items[j]) matches Some(y) ==> q(y)) by {
        if let ItemModel::Host(h) = d.items[j] {
            lemma_filter_map_all(
                h.body,
                keep_unless(member_pred(uuid)),
                |l: BodyLineModel| sce_value(l, SceKindTag::Group) != Some(uuid),
            );
        }
    }
    lemma_filter_map_all(d.items, f, q);
    lemma_host_index(items, alias);
    if let Some(i) = host_index(items, alias) {
        let h = host_at(items, i);
        assert(q(items[i]));
        let vs = sce_values(h.body, SceKindTag::Group);
        lemma_filter_map_all(h.body, |l: BodyLineModel| sce_value(l, SceKindTag::Group), |u: Seq<char>| u != uuid);
        if vs.len() > 0 {
            assert(vs[0] != uuid);
        }
    }
}

/// Renaming a group gives the first group with that uuid the new name and
/// leaves every other group, every host alias and every host's decoded view
/// as they were; renaming a group that does not exist changes nothing.
pub proof fn rename_group_renames_first(d: DocModel, uuid: Seq<char>, name: Seq<char>, alias: Seq<char>)
    ensures
        marker_index(d.items, uuid) is None ==> rename_group_m(d, uuid, name) == d,
        marker_index(d.items, uuid) is Some ==> exists|k: int|
            0 <= k < groups_m(d.items).len() && (#[trigger] groups_m(d.items)[k]).0 == uuid && (forall|
                j: int,
            | 0 <= j < k ==> (#[trigger] groups_m(d.items)[j]).0 != uuid) && groups_m(
                rename_group_m(d, uuid, name).items,
            ) == groups_m(d.items).update(k, (uuid, name)),
        host_aliases_m(rename_group_m(d, uuid, name).items) == host_aliases_m(d.items),
        host_view_m(rename_group_m(d, uuid, name), alias) == host_view_m(d, alias),
{
    lemma_marker_index(d.items, uuid);
    if let Some(i) = marker_index(d.items, uuid) {
        let g = |it: ItemModel| group_of_item(it);
        let al = |it: ItemModel| alias_of_item(it);
        let marker = ItemModel::GroupMarker { uuid, name, raw: marker_line(uuid, name) };
        let items = d.items.update(i, marker);
        lemma_filter_map_update_at(d.items, i, marker, g);
        lemma_filter_map_update_same(d.items, i, marker, al);
        lemma_host_index_update_non_host(d.items, i, marker, alias);
        let k = d.items.take(i).filter_map(g).len() as int;
        let gs = groups_m(d.items);
        let pre = d.items.take(i);
        assert forall|j: int| 0 <= j < pre.len() implies (g(#[trigger] pre[j]) matches Some(y) ==> y.0
            != uuid) by {
            assert(pre[j] == d.items[j]);
        }
        lemma_filter_map_all(pre, g, |p: (Seq<char>, Seq<char>)| p.0 != uuid);
        assert(d.items =~= pre + d.items.skip(i));
        lemma_filter_map_add(pre, d.items.skip(i), g);
        assert forall|j: int| 0 <= j < k implies (#[trigger] gs[j]).0 != uuid by {
            assert(gs[j] == pre.filter_map(g)[j]);
        }
        assert(gs[k].0 == uuid);
    }
}

/// The pair kept by `delete_group` of a group list: every group but those
/// with the uuid.
pub open spec fn other_group(uuid: Seq<char>) -> spec_fn((Seq<char>, Seq<char>)) -> Option<
    (Seq<char>, Seq<char>),
> {
    |p: (Seq<char>, Seq<char>)| if p.0 == uuid {
        None
    } else {
        Some(p)
    }
}

pub open spec fn group_unless(it: ItemModel, uuid: Seq<char>) -> Option<(Seq<char>, Seq<char>)> {
    match it {
        ItemModel::GroupMarker { uuid: u, name, .. } => if u == uuid {
            None
        } else {
            Some((u, name))
        },
        _ => None,
    }
}

/// Deleting a group leaves the group list with exactly the groups of other
/// uuids, in their order.
pub proof fn delete_then_groups(d: DocModel, uuid: Seq<char>)
    ensures
        groups_m(delete_group_m(d, uuid).items) == groups_m(d.items).filter_map(other_group(uuid)),
{
    let f = group_remover(uuid);
    let g = |it: ItemModel| group_of_item(it);
    let h = |it: ItemModel| group_unless(it, uuid);
    assert forall|x: ItemModel| (match #[trigger] f(x) {
        Some(y) => g(y),
        None => None,
    }) == h(x) by {
        match x {
            ItemModel::Host(hm) => {},
            _ => {},
        }
    }
    lemma_filter_map_chain(d.items, f, g, h);
    assert forall|x: ItemModel| (match #[trigger] g(x) {
        Some(y) => other_group(uuid)(y),
        None => None,
    }) == h(x) by {}
    lemma_filter_map_chain(d.items, g, other_group(uuid), h);
}

/// `upsert_host` keeps the host alias list when the alias already had a
/// host, and appends the alias to it when the call created the host.
pub proof fn upsert_then_aliases(d: DocModel, alias: Seq<char>, f: CoreFieldsModel)
    ensures
        host_aliases_m(upsert_host_m(d, alias, f).items) == if host_index(d.items, alias) is Some {
            host_aliases_m(d.items)
        } else {
            host_aliases_m(d.items).push(alias)
        },
{
    let al = |it: ItemModel| alias_of_item(it);
    lemma_ensure_host(d, alias);
    let d1 = ensure_host_m(d, alias);
    let i = host_index(d1.items, alias)->0;
    lemma_host_index(d1.items, alias);
    let h = host_at(d1.items, i);
    assert(d1.items[i] == ItemModel::Host(h));
    assert(apply_core_m(h, f).patterns == h.patterns);
    lemma_filter_map_update_same(d1.items, i, ItemModel::Host(apply_core_m(h, f)), al);
    if host_index(d.items, alias) is None {
        let a = with_separator(d.items);
        let nh = ItemModel::Host(new_host(alias, d.default_indent));
        assert(d1.items =~= a + seq![nh]);
        lemma_filter_map_add(a, seq![nh], al);
        lemma_filter_map_single(nh, al);
        if a != d.items {
            let blank = ItemModel::Blank(seq![]);
            assert(a =~= d.items + seq![blank]);
            lemma_filter_map_add(d.items, seq![blank], al);
            lemma_filter_map_single(blank, al);
            assert(d.items.filter_map(al) + Seq::<Seq<char>>::empty() =~= d.items.filter_map(al));
        }
    }
}

/// `rename_host` changes only the first block carrying the old alias: in it
/// every pattern equal to the old alias becomes the new one and the `Host`
/// line is rebuilt from the patterns; every other item, the default indent
/// and the final line break are kept. Without such a block nothing changes.
pub proof fn rename_host_changes_one_block(d: DocModel, from: Seq<char>, to: Seq<char>)
    ensures
        match host_index(d.items, from) {
            Some(i) => {
                let h = host_at(d.items, i);
                let ps = renamed(h.patterns, from, to);
                let r = rename_host_m(d, from, to);
                &&& r.items.len() == d.items.len()
                &&& forall|j: int| 0 <= j < d.items.len() && j != i ==> #[trigger] r.items[j] == d.items[j]
                &&& r.items[i] == ItemModel::Host(
                    HostModel { patterns: ps, raw_host_line: host_line(h.host_indent, ps), ..h },
                )
                &&& r.default_indent == d.default_indent
                &&& r.trailing_newline == d.trailing_newline
            },
            None => rename_host_m(d, from, to) == d,
        },
{
    lemma_host_index(d.items, from);
}

pub open spec fn outline_group(e: OutlineModel) -> Option<(Seq<char>, Seq<char>)> {
    match e {
        OutlineModel::Group { uuid, name } => Some((uuid, name)),
        _ => None,
    }
}

pub open spec fn outline_alias(e: OutlineModel) -> Option<Seq<char>> {
    match e {
        OutlineModel::Host { alias, .. } => Some(alias),
        _ => None,
    }
}

/// The outline lists the document's groups and host aliases: its group
/// entries are the group list and its host entries are the alias list, each
/// in order.
pub proof fn outline_matches_groups_and_aliases(items: Seq<ItemModel>)
    ensures
        outline_m(items).filter_map(|e: OutlineModel| outline_group(e)) == groups_m(items),
        outline_m(items).filter_map(|e: OutlineModel| outline_alias(e)) == host_aliases_m(items),
{
    let f = |it: ItemModel| outline_of_item(it);
    let og = |e: OutlineModel| outline_group(e);
    let oa = |e: OutlineModel| outline_alias(e);
    let g = |it: ItemModel| group_of_item(it);
    let al = |it: ItemModel| alias_of_item(it);
    assert forall|x: ItemModel| (match #[trigger] f(x) {
        Some(y) => og(y),
        None => None,
    }) == g(x) by {}
    lemma_filter_map_chain(items, f, og, g);
    assert forall|x: ItemModel| (match #[trigger] f(x) {
        Some(y) => oa(y),
        None => None,
    }) == al(x) by {}
    lemma_filter_map_chain(items, f, oa, al);
}

/// Reading a host by alias finds the first block that carries the alias
/// among its patterns (exact, case-sensitive, at any position) and decodes
/// it; there is no such host exactly when no block carries the alias.
pub proof fn host_view_reads_first_block(d: DocModel, alias: Seq<char>)
    ensures
        host_view_m(d, alias) is None <==> forall|j: int|
            0 <= j < d.items.len() ==> !is_host_for(#[trigger] d.items[j], alias),
        host_view_m(d, alias) matches Some(v) ==> exists|i: int|
            0 <= i < d.items.len() && #[trigger] is_host_for(d.items[i], alias) && (forall|j: int|
                0 <= j < i ==> !is_host_for(#[trigger] d.items[j], alias)) && d.items[i] == ItemModel::Host(
                host_at(d.items, i),
            ) && v == host_view_of(host_at(d.items, i)),
{
    lemma_host_index(d.items, alias);
    if let Some(i) = host_index(d.items, alias) {
        assert(is_host_for(d.items[i], alias));
    }
}

/// Setting a description replaces the description line and nothing else
/// above the host: with comment lines above it, their number stays the same,
/// all but the last are kept and the last becomes `# <text>`; without any,
/// `# <text>` becomes the one comment line. Every other item is unchanged.
pub proof fn set_description_replaces_last_comment(d: DocModel, alias: Seq<char>, t: Seq<char>)
    requires
        host_index(d.items, alias) is Some,
    ensures
        ({
            let i = host_index(d.items, alias)->0;
            let old_lc = host_at(d.items, i).leading_comments;
            let d2 = set_description_doc_m(d, alias, Some(t));
            let new_lc = host_at(d2.items, i).leading_comments;
            &&& d2.items.len() == d.items.len()
            &&& forall|j: int| 0 <= j < d.items.len() && j != i ==> #[trigger] d2.items[j] == d.items[j]
            &&& host_index(d2.items, alias) == Some(i)
            &&& old_lc.len() > 0 ==> new_lc.len() == old_lc.len() && (forall|j: int|
                0 <= j < old_lc.len() - 1 ==> #[trigger] new_lc[j] == old_lc[j]) && new_lc.last() == seq![
                '#',
                ' ',
            ] + t
            &&& old_lc.len() == 0 ==> new_lc == seq![seq!['#', ' '] + t]
        }),
{
    let i = host_index(d.items, alias)->0;
    let h = host_at(d.items, i);
    let h2 = HostModel { leading_comments: set_description_m(h.leading_comments, Some(t)), ..h };
    lemma_host_index(d.items, alias);
    lemma_host_index_kept(d.items, i, h2, alias);
}

/// Clearing a description removes the last comment line above the host and
/// keeps the others, in order; a host without comments above it is left as
/// it was.
pub proof fn clear_description_drops_last_comment(d: DocModel, alias: Seq<char>)
    requires
        host_index(d.items, alias) is Some,
    ensures
        ({
            let i = host_index(d.items, alias)->0;
            let old_lc = host_at(d.items, i).leading_comments;
            let d2 = set_description_doc_m(d, alias, None);
            let new_lc = host_at(d2.items, i).leading_comments;
            &&& host_index(d2.items, alias) == Some(i)
            &&& old_lc.len() > 0 ==> new_lc.len() == old_lc.len() - 1 && forall|j: int|
                0 <= j < new_lc.len() ==> #[trigger] new_lc[j] == old_lc[j]
            &&& old_lc.len() == 0 ==> new_lc == old_lc
        }),
{
    let i = host_index(d.items, alias)->0;
    let h = host_at(d.items, i);
    let h2 = HostModel { leading_comments: set_description_m(h.leading_comments, None), ..h };
    lemma_host_index(d.items, alias);
    lemma_host_index_kept(d.items, i, h2, alias);
}

} // verus!
