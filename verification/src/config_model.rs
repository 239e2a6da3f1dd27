//! Editable, lossless model of `~/.ssh/config` with SSH Config Editor (SCE)
//! metadata.
//!
//! The file is parsed into a document that keeps every line's verbatim text
//! (comments, blank lines, indentation, directive casing, unrecognized
//! directives and `Match`/`Include` blocks) and exposes an editing API.
//!
//! SCE metadata, which OpenSSH ignores, is stored as comments:
//! - group (folder): `#SCE_GROUP:<UUID>:::<Name>` — a loose line before its hosts;
//! - group membership: `#SCEGroup <UUID>` — inside the `Host` block;
//! - icon: `#SCEIcon <name>` — inside the `Host` block;
//! - color / tag: `#SCETags <Color>` — inside the `Host` block;
//! - description: `# <text>` — the comment line above the `Host`.
//!
//! Serialization emits each preserved line's text unchanged; editing
//! operations rebuild only the lines they change.
use vstd::prelude::*;
use crate::text::{
    char_vecs, chars_eq, chars_of, eq_ic, eq_ignore_case, extend, find_seq, first_ws,
    has_prefix, index_of, index_of_seq, lead_ws, lemma_filter_map_add, raw_lines, split_raw_lines,
    lemma_filter_map_empty, lemma_filter_map_single, lemma_filter_map_take_succ,
    lemma_index_of, lemma_index_of_seq, lemma_map_push, lemma_map_take_succ,
    lemma_index_of_at, lemma_index_of_seq_at, lemma_trim_bounds, is_ws,
    ends_with_newline, slice_of, split_words, starts_with, string_of,
    trim, trim_chars, trim_start, trim_start_chars, upper, upper_chars, word_len, words,
};
use crate::types::{
    AdvancedModel, AuthType, ForwardModel, PortForward, PortForwardKind, ServerModel,
    SshAdvancedConfig, SshServerInfo, opt_str, parse_forward,
};

verus! {

// ---------------------------------------------------------------------------
// Abstract model
// ---------------------------------------------------------------------------
pub ghost enum SceKindModel {
    Group(Seq<char>),
    Icon(Seq<char>),
    Tags(Seq<char>),
}

/// A line inside a `Host` block.
pub ghost enum BodyLineModel {
    /// An SSH directive: verbatim text, keyword, value.
    Directive { raw: Seq<char>, keyword: Seq<char>, value: Seq<char> },
    /// An SCE metadata comment: verbatim text and decoded content.
    Sce { raw: Seq<char>, kind: SceKindModel },
    /// A blank line or plain comment, verbatim.
    Raw(Seq<char>),
}

pub ghost struct HostModel {
    /// Comment lines immediately above the `Host` line; the last one is the
    /// description.
    pub leading_comments: Seq<Seq<char>>,
    pub raw_host_line: Seq<char>,
    pub host_indent: Seq<char>,
    /// The literal patterns after `Host`.
    pub patterns: Seq<Seq<char>>,
    /// Indentation applied to body lines written by the editor.
    pub indent: Seq<char>,
    pub body: Seq<BodyLineModel>,
}

pub ghost struct MatchModel {
    pub leading_comments: Seq<Seq<char>>,
    /// The `Match` line and its body, verbatim.
    pub lines: Seq<Seq<char>>,
}

/// A top-level entry of the document.
pub ghost enum ItemModel {
    /// A whitespace-only line, verbatim.
    Blank(Seq<char>),
    Comment(Seq<char>),
    /// A group marker: decoded uuid and name, and the verbatim line.
    GroupMarker { uuid: Seq<char>, name: Seq<char>, raw: Seq<char> },
    Global(Seq<char>),
    Host(HostModel),
    Match(MatchModel),
}

/// The abstract value of an [`SshConfigDocument`].
pub ghost struct DocModel {
    pub items: Seq<ItemModel>,
    pub default_indent: Seq<char>,
    pub trailing_newline: bool,
}

pub open spec fn default_indent_chars() -> Seq<char> {
    seq![' ', ' ', ' ', ' ']
}

pub open spec fn group_prefix() -> Seq<char> {
    seq!['#', 'S', 'C', 'E', '_', 'G', 'R', 'O', 'U', 'P', ':']
}

pub open spec fn triple_colon() -> Seq<char> {
    seq![':', ':', ':']
}

pub open spec fn kw_host() -> Seq<char> {
    seq!['H', 'o', 's', 't']
}

pub open spec fn kw_match() -> Seq<char> {
    seq!['M', 'a', 't', 'c', 'h']
}

pub open spec fn kw_sce_group() -> Seq<char> {
    seq!['S', 'C', 'E', 'G', 'r', 'o', 'u', 'p']
}

pub open spec fn kw_sce_icon() -> Seq<char> {
    seq!['S', 'C', 'E', 'I', 'c', 'o', 'n']
}

pub open spec fn kw_sce_tags() -> Seq<char> {
    seq!['S', 'C', 'E', 'T', 'a', 'g', 's']
}

/// The text of a group marker line.
pub open spec fn marker_line(uuid: Seq<char>, name: Seq<char>) -> Seq<char> {
    group_prefix() + uuid + triple_colon() + name
}

// ---------------------------------------------------------------------------
// Rendering
// ---------------------------------------------------------------------------
pub open spec fn render_body_line(b: BodyLineModel) -> Seq<char> {
    match b {
        BodyLineModel::Directive { raw, .. } => raw,
        BodyLineModel::Sce { raw, .. } => raw,
        BodyLineModel::Raw(s) => s,
    }
}

pub open spec fn render_host(h: HostModel) -> Seq<Seq<char>> {
    h.leading_comments + seq![h.raw_host_line] + h.body.map_values(
        |b: BodyLineModel| render_body_line(b),
    )
}

/// The lines an item occupies in the file.
pub open spec fn render_item(i: ItemModel) -> Seq<Seq<char>> {
    match i {
        ItemModel::Blank(b) => seq![b],
        ItemModel::Comment(c) => seq![c],
        ItemModel::GroupMarker { raw, .. } => seq![raw],
        ItemModel::Global(r) => seq![r],
        ItemModel::Host(h) => render_host(h),
        ItemModel::Match(m) => m.leading_comments + m.lines,
    }
}

pub open spec fn render_items(items: Seq<ItemModel>) -> Seq<Seq<char>>
    decreases items.len(),
{
    if items.len() == 0 {
        seq![]
    } else {
        render_items(items.drop_last()) + render_item(items.last())
    }
}

/// Lines joined with `\n`.
pub open spec fn join_lines(ls: Seq<Seq<char>>) -> Seq<char>
    decreases ls.len(),
{
    if ls.len() == 0 {
        seq![]
    } else if ls.len() == 1 {
        ls[0]
    } else {
        join_lines(ls.drop_last()) + seq!['\n'] + ls.last()
    }
}

/// The text of a document.
pub open spec fn doc_text(d: DocModel) -> Seq<char> {
    join_lines(render_items(d.items)) + if d.trailing_newline {
        seq!['\n']
    } else {
        Seq::<char>::empty()
    }
}

// ---------------------------------------------------------------------------
// Parsing
// ---------------------------------------------------------------------------
pub ghost enum CurrentModel {
    Nothing,
    Host(HostModel),
    Match(MatchModel),
}

pub ghost struct ParserModel {
    pub items: Seq<ItemModel>,
    /// Loose comments waiting to learn whether they lead a block.
    pub pending: Seq<Seq<char>>,
    pub current: CurrentModel,
    /// The indentation of the first directive seen in any host.
    pub default_indent: Option<Seq<char>>,
}

/// The leading whitespace of a line.
pub open spec fn leading_of(line: Seq<char>) -> Seq<char> {
    line.take(lead_ws(line) as int)
}

/// The text after the first word of a trimmed line, with leading
/// whitespace removed.
pub open spec fn rest_of(t: Seq<char>) -> Seq<char> {
    trim_start(t.skip(word_len(t) as int))
}

pub open spec fn first_word(t: Seq<char>) -> Seq<char> {
    t.take(word_len(t) as int)
}

/// `Host` tokens up to (excluding) the first one starting with `#`.
pub open spec fn until_comment(ws: Seq<Seq<char>>) -> Seq<Seq<char>>
    decreases ws.len(),
{
    if ws.len() == 0 {
        seq![]
    } else if ws[0].len() > 0 && ws[0][0] == '#' {
        seq![]
    } else {
        seq![ws[0]] + until_comment(ws.drop_first())
    }
}

/// The literal `Host` patterns of the text after the keyword.
pub open spec fn host_patterns(rest: Seq<char>) -> Seq<Seq<char>> {
    until_comment(words(rest))
}

/// The SCE metadata a trimmed comment line carries, if any.
pub open spec fn sce_kind_of(t: Seq<char>) -> Option<SceKindModel> {
    let rest = t.drop_first();
    let kw = first_word(rest);
    let value = trim(trim_start(rest.skip(word_len(rest) as int)));
    if eq_ic(kw, kw_sce_group()) {
        Some(SceKindModel::Group(value))
    } else if eq_ic(kw, kw_sce_icon()) {
        Some(SceKindModel::Icon(value))
    } else if eq_ic(kw, kw_sce_tags()) {
        Some(SceKindModel::Tags(value))
    } else {
        None
    }
}

/// The `(uuid, name)` of a trimmed group marker line.
pub open spec fn group_marker_of(t: Seq<char>) -> Option<(Seq<char>, Seq<char>)> {
    if starts_with(t, group_prefix()) {
        let rest = t.skip(11);
        match index_of_seq(rest, triple_colon()) {
            Some(k) => Some((rest.take(k), rest.skip(k + 3))),
            None => None,
        }
    } else {
        None
    }
}

/// Close the open block, if any.
pub open spec fn finish_m(p: ParserModel) -> ParserModel {
    match p.current {
        CurrentModel::Nothing => p,
        CurrentModel::Host(h) => ParserModel {
            items: p.items.push(ItemModel::Host(h)),
            current: CurrentModel::Nothing,
            ..p
        },
        CurrentModel::Match(m) => ParserModel {
            items: p.items.push(ItemModel::Match(m)),
            current: CurrentModel::Nothing,
            ..p
        },
    }
}

pub open spec fn as_comments(pending: Seq<Seq<char>>) -> Seq<ItemModel> {
    pending.map_values(|c: Seq<char>| ItemModel::Comment(c))
}

/// Emit the waiting comments as loose comment lines.
pub open spec fn flush_m(p: ParserModel) -> ParserModel {
    ParserModel { items: p.items + as_comments(p.pending), pending: seq![], ..p }
}

pub open spec fn with_default(o: Option<Seq<char>>, d: Seq<char>) -> Seq<char> {
    match o {
        Some(x) => x,
        None => d,
    }
}

/// A comment line (its trimmed text starts with `#`).
pub open spec fn feed_comment_m(p: ParserModel, line: Seq<char>, t: Seq<char>) -> ParserModel {
    match group_marker_of(t) {
        Some((uuid, name)) => {
            let q = flush_m(finish_m(p));
            ParserModel { items: q.items.push(ItemModel::GroupMarker { uuid, name, raw: line }), ..q }
        },
        None => match (p.current, sce_kind_of(t)) {
            (CurrentModel::Host(h), Some(kind)) => ParserModel {
                current: CurrentModel::Host(
                    HostModel {
                        indent: if h.body.len() == 0 {
                            leading_of(line)
                        } else {
                            h.indent
                        },
                        body: h.body.push(BodyLineModel::Sce { raw: line, kind }),
                        ..h
                    },
                ),
                ..p
            },
            (CurrentModel::Host(h), None) => ParserModel {
                current: CurrentModel::Host(
                    HostModel { body: h.body.push(BodyLineModel::Raw(line)), ..h },
                ),
                ..p
            },
            (CurrentModel::Match(m), _) => ParserModel {
                current: CurrentModel::Match(MatchModel { lines: m.lines.push(line), ..m }),
                ..p
            },
            (CurrentModel::Nothing, _) => ParserModel { pending: p.pending.push(line), ..p },
        },
    }
}

/// The parser's reaction to one line.
pub open spec fn feed_m(p: ParserModel, line: Seq<char>) -> ParserModel {
    let t = trim(line);
    if t.len() == 0 {
        let q = flush_m(finish_m(p));
        ParserModel { items: q.items.push(ItemModel::Blank(line)), ..q }
    } else if t[0] == '#' {
        feed_comment_m(p, line, t)
    } else {
        let kw = first_word(t);
        let rest = rest_of(t);
        if eq_ic(kw, kw_host()) {
            let q = finish_m(p);
            ParserModel {
                pending: seq![],
                current: CurrentModel::Host(
                    HostModel {
                        leading_comments: q.pending,
                        raw_host_line: line,
                        host_indent: leading_of(line),
                        patterns: host_patterns(rest),
                        indent: with_default(q.default_indent, default_indent_chars()),
                        body: seq![],
                    },
                ),
                ..q
            }
        } else if eq_ic(kw, kw_match()) {
            let q = finish_m(p);
            ParserModel {
                pending: seq![],
                current: CurrentModel::Match(MatchModel { leading_comments: q.pending, lines: seq![line] }),
                ..q
            }
        } else {
            match p.current {
                CurrentModel::Host(h) => ParserModel {
                    default_indent: Some(with_default(p.default_indent, leading_of(line))),
                    current: CurrentModel::Host(
                        HostModel {
                            indent: if h.body.len() == 0 {
                                leading_of(line)
                            } else {
                                h.indent
                            },
                            body: h.body.push(
                                BodyLineModel::Directive { raw: line, keyword: kw, value: rest },
                            ),
                            ..h
                        },
                    ),
                    ..p
                },
                CurrentModel::Match(m) => ParserModel {
                    current: CurrentModel::Match(MatchModel { lines: m.lines.push(line), ..m }),
                    ..p
                },
                CurrentModel::Nothing => {
                    let q = flush_m(p);
                    ParserModel { items: q.items.push(ItemModel::Global(line)), ..q }
                },
            }
        }
    }
}

pub open spec fn parser_start() -> ParserModel {
    ParserModel {
        items: seq![],
        pending: seq![],
        current: CurrentModel::Nothing,
        default_indent: None,
    }
}

pub open spec fn run_m(ls: Seq<Seq<char>>) -> ParserModel
    decreases ls.len(),
{
    if ls.len() == 0 {
        parser_start()
    } else {
        feed_m(run_m(ls.drop_last()), ls.last())
    }
}

/// The document a config text parses to.
pub open spec fn parse_m(content: Seq<char>) -> DocModel {
    let p = flush_m(finish_m(run_m(raw_lines(content))));
    DocModel {
        items: p.items,
        default_indent: with_default(p.default_indent, default_indent_chars()),
        trailing_newline: ends_with_newline(content),
    }
}

// ---------------------------------------------------------------------------
// Exec representation
// ---------------------------------------------------------------------------
#[derive(Clone, Debug)]
enum SceKind {
    Group(Vec<char>),
    Icon(Vec<char>),
    Tags(Vec<char>),
}

impl View for SceKind {
    type V = SceKindModel;

    closed spec fn view(&self) -> SceKindModel {
        match self {
            SceKind::Group(s) => SceKindModel::Group(s@),
            SceKind::Icon(s) => SceKindModel::Icon(s@),
            SceKind::Tags(s) => SceKindModel::Tags(s@),
        }
    }
}

#[derive(Clone, Debug)]
enum BodyLine {
    Directive { raw: Vec<char>, keyword: Vec<char>, value: Vec<char> },
    Sce { raw: Vec<char>, kind: SceKind },
    Raw(Vec<char>),
}

impl View for BodyLine {
    type V = BodyLineModel;

    closed spec fn view(&self) -> BodyLineModel {
        match self {
            BodyLine::Directive { raw, keyword, value } => BodyLineModel::Directive {
                raw: raw@,
                keyword: keyword@,
                value: value@,
            },
            BodyLine::Sce { raw, kind } => BodyLineModel::Sce { raw: raw@, kind: kind@ },
            BodyLine::Raw(s) => BodyLineModel::Raw(s@),
        }
    }
}

pub open spec fn body_views<T: View<V = BodyLineModel>>(v: Seq<T>) -> Seq<BodyLineModel> {
    v.map_values(|b: T| b@)
}

#[derive(Clone, Debug)]
struct HostBlock {
    leading_comments: Vec<Vec<char>>,
    raw_host_line: Vec<char>,
    host_indent: Vec<char>,
    patterns: Vec<Vec<char>>,
    indent: Vec<char>,
    body: Vec<BodyLine>,
}

impl View for HostBlock {
    type V = HostModel;

    closed spec fn view(&self) -> HostModel {
        HostModel {
            leading_comments: char_vecs(self.leading_comments@),
            raw_host_line: self.raw_host_line@,
            host_indent: self.host_indent@,
            patterns: char_vecs(self.patterns@),
            indent: self.indent@,
            body: body_views(self.body@),
        }
    }
}

#[derive(Clone, Debug)]
struct MatchBlock {
    leading_comments: Vec<Vec<char>>,
    lines: Vec<Vec<char>>,
}

impl View for MatchBlock {
    type V = MatchModel;

    closed spec fn view(&self) -> MatchModel {
        MatchModel {
            leading_comments: char_vecs(self.leading_comments@),
            lines: char_vecs(self.lines@),
        }
    }
}

#[derive(Clone, Debug)]
enum Item {
    Blank(Vec<char>),
    Comment(Vec<char>),
    GroupMarker { uuid: Vec<char>, name: Vec<char>, raw: Vec<char> },
    Global(Vec<char>),
    Host(HostBlock),
    Match(MatchBlock),
}

impl View for Item {
    type V = ItemModel;

    closed spec fn view(&self) -> ItemModel {
        match self {
            Item::Blank(b) => ItemModel::Blank(b@),
            Item::Comment(c) => ItemModel::Comment(c@),
            Item::GroupMarker { uuid, name, raw } => ItemModel::GroupMarker {
                uuid: uuid@,
                name: name@,
                raw: raw@,
            },
            Item::Global(r) => ItemModel::Global(r@),
            Item::Host(h) => ItemModel::Host(h@),
            Item::Match(m) => ItemModel::Match(m@),
        }
    }
}

pub open spec fn item_views<T: View<V = ItemModel>>(v: Seq<T>) -> Seq<ItemModel> {
    v.map_values(|i: T| i@)
}

/// A parsed, editable `~/.ssh/config`.
#[derive(Clone, Debug)]
pub struct SshConfigDocument {
    items: Vec<Item>,
    /// Indentation used for body lines of newly created hosts.
    default_indent: Vec<char>,
    /// Whether the source ended with a trailing newline (kept on serialize).
    trailing_newline: bool,
}

impl View for SshConfigDocument {
    type V = DocModel;

    closed spec fn view(&self) -> DocModel {
        DocModel {
            items: item_views(self.items@),
            default_indent: self.default_indent@,
            trailing_newline: self.trailing_newline,
        }
    }
}

enum Current {
    Nothing,
    Host(HostBlock),
    Match(MatchBlock),
}

impl View for Current {
    type V = CurrentModel;

    closed spec fn view(&self) -> CurrentModel {
        match self {
            Current::Nothing => CurrentModel::Nothing,
            Current::Host(h) => CurrentModel::Host(h@),
            Current::Match(m) => CurrentModel::Match(m@),
        }
    }
}

struct Parser {
    items: Vec<Item>,
    pending: Vec<Vec<char>>,
    current: Current,
    default_indent: Option<Vec<char>>,
}

pub open spec fn opt_chars_of(o: Option<Vec<char>>) -> Option<Seq<char>> {
    match o {
        Some(v) => Some(v@),
        None => None,
    }
}

impl View for Parser {
    type V = ParserModel;

    closed spec fn view(&self) -> ParserModel {
        ParserModel {
            items: item_views(self.items@),
            pending: char_vecs(self.pending@),
            current: self.current@,
            default_indent: opt_chars_of(self.default_indent),
        }
    }
}

fn default_indent_vec() -> (r: Vec<char>)
    ensures
        r@ == default_indent_chars(),
{
    vec![' ', ' ', ' ', ' ']
}

/// The leading whitespace of a line.
fn leading_whitespace(line: &Vec<char>) -> (r: Vec<char>)
    ensures
        r@ == leading_of(line@),
{
    let k = crate::text::skip_ws(line);
    slice_of(line, 0, k)
}

/// Tokens up to the first one that starts with `#`.
fn parse_patterns(rest: &Vec<char>) -> (r: Vec<Vec<char>>)
    ensures
        char_vecs(r@) == host_patterns(rest@),
{
    let toks = split_words(rest);
    let ghost tv = char_vecs(toks@);
    assert(tv.skip(0) =~= tv);
    let mut r: Vec<Vec<char>> = Vec::new();
    let mut i: usize = 0;
    while i < toks.len()
        invariant
            i <= toks.len(),
            tv == char_vecs(toks@),
            tv == words(rest@),
            char_vecs(r@) + until_comment(tv.skip(i as int)) == until_comment(tv),
        decreases toks.len() - i,
    {
        let tok = &toks[i];
        assert(tv[i as int] == tok@);
        assert(tv.skip(i as int)[0] == tok@);
        if tok.len() > 0 && tok[0] == '#' {
            assert(until_comment(tv.skip(i as int)) =~= Seq::<Seq<char>>::empty());
            assert(char_vecs(r@) =~= until_comment(tv));
            return r;
        }
        let ghost prev = r@;
        r.push(tok.clone());
        proof {
            lemma_map_push(prev, *tok, |w: Vec<char>| w@);
            assert(tv.skip(i as int).drop_first() =~= tv.skip(i + 1));
        }
        i += 1;
    }
    assert(tv.skip(i as int) =~= Seq::<Seq<char>>::empty());
    r
}

fn sce_keyword(which: u8) -> (r: Vec<char>)
    requires
        which < 3,
    ensures
        which == 0 ==> r@ == kw_sce_group(),
        which == 1 ==> r@ == kw_sce_icon(),
        which == 2 ==> r@ == kw_sce_tags(),
{
    if which == 0 {
        vec!['S', 'C', 'E', 'G', 'r', 'o', 'u', 'p']
    } else if which == 1 {
        vec!['S', 'C', 'E', 'I', 'c', 'o', 'n']
    } else {
        vec!['S', 'C', 'E', 'T', 'a', 'g', 's']
    }
}

/// Parse an SCE body comment (`#SCEGroup`, `#SCEIcon`, `#SCETags`).
fn parse_sce_body(t: &Vec<char>) -> (r: Option<SceKind>)
    requires
        t.len() > 0,
    ensures
        match (r, sce_kind_of(t@)) {
            (Some(k), Some(m)) => k@ == m,
            (None, None) => true,
            _ => false,
        },
{
    let rest = slice_of(t, 1, t.len());
    assert(rest@ =~= t@.drop_first());
    let k = first_ws(&rest);
    let kw = slice_of(&rest, 0, k);
    let after = slice_of(&rest, k, rest.len());
    let value = trim_chars(&trim_start_chars(&after));
    assert(after@ =~= rest@.skip(k as int));
    if eq_ignore_case(&kw, &sce_keyword(0)) {
        Some(SceKind::Group(value))
    } else if eq_ignore_case(&kw, &sce_keyword(1)) {
        Some(SceKind::Icon(value))
    } else if eq_ignore_case(&kw, &sce_keyword(2)) {
        Some(SceKind::Tags(value))
    } else {
        None
    }
}

fn group_prefix_vec() -> (r: Vec<char>)
    ensures
        r@ == group_prefix(),
{
    vec!['#', 'S', 'C', 'E', '_', 'G', 'R', 'O', 'U', 'P', ':']
}

/// Decode a `#SCE_GROUP:<uuid>:::<name>` marker.
fn parse_group_marker(t: &Vec<char>) -> (r: Option<(Vec<char>, Vec<char>)>)
    ensures
        match (r, group_marker_of(t@)) {
            (Some((u, n)), Some((u2, n2))) => u@ == u2 && n@ == n2,
            (None, None) => true,
            _ => false,
        },
{
    if !has_prefix(t, &group_prefix_vec()) {
        return None;
    }
    let rest = slice_of(t, 11, t.len());
    assert(rest@ =~= t@.skip(11));
    match find_seq(&rest, &vec![':', ':', ':']) {
        Some(k) => {
            proof {
                lemma_index_of_seq(rest@, triple_colon());
            }
            let uuid = slice_of(&rest, 0, k);
            let name = slice_of(&rest, k + 3, rest.len());
            assert(name@ =~= rest@.skip(k + 3));
            Some((uuid, name))
        },
        None => None,
    }
}

impl Parser {
    fn finish_current(&mut self)
        ensures
            final(self)@ == finish_m(old(self)@),
    {
        let mut cur = Current::Nothing;
        std::mem::swap(&mut cur, &mut self.current);
        match cur {
            Current::Nothing => {},
            Current::Host(h) => {
                let ghost prev = self.items@;
                self.items.push(Item::Host(h));
                proof {
                    lemma_map_push(prev, Item::Host(h), |i: Item| i@);
                }
            },
            Current::Match(m) => {
                let ghost prev = self.items@;
                self.items.push(Item::Match(m));
                proof {
                    lemma_map_push(prev, Item::Match(m), |i: Item| i@);
                }
            },
        }
    }

    fn flush_pending(&mut self)
        ensures
            final(self)@ == flush_m(old(self)@),
    {
        let mut pending: Vec<Vec<char>> = Vec::new();
        std::mem::swap(&mut pending, &mut self.pending);
        let ghost start = item_views(self.items@);
        let ghost pv = char_vecs(pending@);
        let ghost cur0 = self.current@;
        let ghost di0 = self.default_indent;
        assert(pv == old(self)@.pending);
        assert(start == old(self)@.items);
        let mut i: usize = 0;
        while i < pending.len()
            invariant
                i <= pending.len(),
                pv == char_vecs(pending@),
                self.pending@.len() == 0,
                self.current@ == cur0,
                self.default_indent == di0,
                item_views(self.items@) == start + as_comments(pv.take(i as int)),
            decreases pending.len() - i,
        {
            let c = pending[i].clone();
            let ghost prev = self.items@;
            self.items.push(Item::Comment(c));
            proof {
                lemma_map_push(prev, Item::Comment(c), |i: Item| i@);
                lemma_map_take_succ(pending@, i as int, |w: Vec<char>| w@);
                assert(pv.take(i + 1) =~= pv.take(i as int).push(c@));
                lemma_map_push(pv.take(i as int), c@, |c: Seq<char>| ItemModel::Comment(c));
            }
            i += 1;
        }
        assert(pv.take(i as int) =~= pv);
        assert(char_vecs(self.pending@) =~= Seq::<Seq<char>>::empty());
    }

    fn feed_comment(&mut self, line: &Vec<char>, t: &Vec<char>)
        requires
            t.len() > 0,
        ensures
            final(self)@ == feed_comment_m(old(self)@, line@, t@),
    {
        if let Some((uuid, name)) = parse_group_marker(t) {
            self.finish_current();
            self.flush_pending();
            let ghost prev = self.items@;
            let it = Item::GroupMarker { uuid, name, raw: line.clone() };
            self.items.push(it);
            proof {
                lemma_map_push(prev, it, |i: Item| i@);
            }
            return;
        }
        let mut cur = Current::Nothing;
        std::mem::swap(&mut cur, &mut self.current);
        match cur {
            Current::Host(mut h) => {
                let ghost hv = h@;
                assert(group_marker_of(t@) is None);
                match parse_sce_body(t) {
                    Some(kind) => {
                        if h.body.len() == 0 {
                            h.indent = leading_whitespace(line);
                        }
                        let ghost prev = h.body@;
                        let b = BodyLine::Sce { raw: line.clone(), kind };
                        h.body.push(b);
                        proof {
                            lemma_map_push(prev, b, |b: BodyLine| b@);
                        }
                    },
                    None => {
                        let ghost prev = h.body@;
                        let b = BodyLine::Raw(line.clone());
                        h.body.push(b);
                        proof {
                            lemma_map_push(prev, b, |b: BodyLine| b@);
                        }
                    },
                }
                self.current = Current::Host(h);
                assert(self@ == feed_comment_m(old(self)@, line@, t@));
            },
            Current::Match(mut m) => {
                let ghost prev = m.lines@;
                let c = line.clone();
                m.lines.push(c);
                proof {
                    lemma_map_push(prev, c, |w: Vec<char>| w@);
                }
                self.current = Current::Match(m);
            },
            Current::Nothing => {
                let ghost prev = self.pending@;
                let c = line.clone();
                self.pending.push(c);
                proof {
                    lemma_map_push(prev, c, |w: Vec<char>| w@);
                }
            },
        }
    }

    fn feed(&mut self, line: &Vec<char>)
        ensures
            final(self)@ == feed_m(old(self)@, line@),
    {
        let t = trim_chars(line);
        if t.len() == 0 {
            self.finish_current();
            self.flush_pending();
            let ghost prev = self.items@;
            let b = Item::Blank(line.clone());
            self.items.push(b);
            proof {
                lemma_map_push(prev, b, |i: Item| i@);
            }
            return;
        }
        if t[0] == '#' {
            self.feed_comment(line, &t);
            return;
        }
        let k = first_ws(&t);
        let kw = slice_of(&t, 0, k);
        let after = slice_of(&t, k, t.len());
        assert(after@ =~= t@.skip(k as int));
        let rest = trim_start_chars(&after);
        if eq_ignore_case(&kw, &vec!['H', 'o', 's', 't']) {
            self.finish_current();
            let mut leading: Vec<Vec<char>> = Vec::new();
            std::mem::swap(&mut leading, &mut self.pending);
            let indent = match &self.default_indent {
                Some(d) => d.clone(),
                None => default_indent_vec(),
            };
            self.current =
            Current::Host(
                HostBlock {
                    leading_comments: leading,
                    raw_host_line: line.clone(),
                    host_indent: leading_whitespace(line),
                    patterns: parse_patterns(&rest),
                    indent,
                    body: Vec::new(),
                },
            );
            assert(char_vecs(self.pending@) =~= Seq::<Seq<char>>::empty());
            assert(body_views(Seq::<BodyLine>::empty()) =~= Seq::<BodyLineModel>::empty());
            return;
        }
        if eq_ignore_case(&kw, &vec!['M', 'a', 't', 'c', 'h']) {
            self.finish_current();
            let mut leading: Vec<Vec<char>> = Vec::new();
            std::mem::swap(&mut leading, &mut self.pending);
            let lines = vec![line.clone()];
            self.current = Current::Match(MatchBlock { leading_comments: leading, lines });
            assert(char_vecs(self.pending@) =~= Seq::<Seq<char>>::empty());
            assert(char_vecs(lines@) =~= seq![line@]);
            return;
        }
        let mut cur = Current::Nothing;
        std::mem::swap(&mut cur, &mut self.current);
        match cur {
            Current::Host(mut h) => {
                if self.default_indent.is_none() {
                    self.default_indent = Some(leading_whitespace(line));
                }
                if h.body.len() == 0 {
                    h.indent = leading_whitespace(line);
                }
                let ghost prev = h.body@;
                let b = BodyLine::Directive { raw: line.clone(), keyword: kw, value: rest };
                h.body.push(b);
                proof {
                    lemma_map_push(prev, b, |b: BodyLine| b@);
                }
                self.current = Current::Host(h);
            },
            Current::Match(mut m) => {
                let ghost prev = m.lines@;
                let c = line.clone();
                m.lines.push(c);
                proof {
                    lemma_map_push(prev, c, |w: Vec<char>| w@);
                }
                self.current = Current::Match(m);
            },
            Current::Nothing => {
                self.flush_pending();
                let ghost prev = self.items@;
                let it = Item::Global(line.clone());
                self.items.push(it);
                proof {
                    lemma_map_push(prev, it, |i: Item| i@);
                }
            },
        }
    }
}

// ---------------------------------------------------------------------------
// The document
// ---------------------------------------------------------------------------
impl SshConfigDocument {
    /// Parse a config file body into an editable document. Pure — no IO.
    /// Rendering the result gives back the input's lines verbatim.
    pub fn parse(content: &str) -> (r: Self)
        ensures
            r@ == parse_m(content@),
            render_items(r@.items) == raw_lines(content@),
    {
        let text = chars_of(content);
        let ls = split_raw_lines(&text);
        let ghost lv = char_vecs(ls@);
        let mut p = Parser {
            items: Vec::new(),
            pending: Vec::new(),
            current: Current::Nothing,
            default_indent: None,
        };
        assert(p@ == parser_start()) by {
            assert(item_views(p.items@) =~= Seq::<ItemModel>::empty());
            assert(char_vecs(p.pending@) =~= Seq::<Seq<char>>::empty());
        }
        let mut i: usize = 0;
        while i < ls.len()
            invariant
                i <= ls.len(),
                lv == char_vecs(ls@),
                lv == raw_lines(content@),
                p@ == run_m(lv.take(i as int)),
            decreases ls.len() - i,
        {
            proof {
                lemma_map_take_succ(ls@, i as int, |w: Vec<char>| w@);
                assert(lv.take(i + 1).drop_last() =~= lv.take(i as int));
            }
            p.feed(&ls[i]);
            i += 1;
        }
        assert(lv.take(i as int) =~= lv);
        p.finish_current();
        p.flush_pending();
        let default_indent = match p.default_indent {
            Some(d) => d,
            None => default_indent_vec(),
        };
        let trailing_newline = text.len() > 0 && text[text.len() - 1] == '\n';
        let r = SshConfigDocument { items: p.items, default_indent, trailing_newline };
        proof {
            lemma_parse_render(content@);
        }
        r
    }
}

fn lines_of(v: &Vec<Vec<char>>) -> (r: Vec<Vec<char>>)
    ensures
        char_vecs(r@) == char_vecs(v@),
{
    let mut r: Vec<Vec<char>> = Vec::new();
    let mut i: usize = 0;
    while i < v.len()
        invariant
            i <= v.len(),
            char_vecs(r@) == char_vecs(v@.take(i as int)),
        decreases v.len() - i,
    {
        let c = v[i].clone();
        let ghost prev = r@;
        r.push(c);
        proof {
            lemma_map_push(prev, c, |w: Vec<char>| w@);
            lemma_map_take_succ(v@, i as int, |w: Vec<char>| w@);
        }
        i += 1;
    }
    assert(v@.take(i as int) =~= v@);
    r
}

impl BodyLine {
    fn render(&self) -> (r: Vec<char>)
        ensures
            r@ == render_body_line(self@),
    {
        match self {
            BodyLine::Directive { raw, .. } => raw.clone(),
            BodyLine::Sce { raw, .. } => raw.clone(),
            BodyLine::Raw(s) => s.clone(),
        }
    }
}

fn group_marker_text(uuid: &Vec<char>, name: &Vec<char>) -> (r: Vec<char>)
    ensures
        r@ == marker_line(uuid@, name@),
{
    let mut out = group_prefix_vec();
    extend(&mut out, uuid);
    extend(&mut out, &vec![':', ':', ':']);
    extend(&mut out, name);
    out
}

/// The lines an item occupies in the file.
fn item_lines(item: &Item) -> (r: Vec<Vec<char>>)
    ensures
        char_vecs(r@) == render_item(item@),
{
    match item {
        Item::Blank(b) => {
            let r = vec![b.clone()];
            assert(char_vecs(r@) =~= render_item(item@));
            r
        },
        Item::Comment(c) => {
            let r = vec![c.clone()];
            assert(char_vecs(r@) =~= render_item(item@));
            r
        },
        Item::GroupMarker { raw, .. } => {
            let r = vec![raw.clone()];
            assert(char_vecs(r@) =~= render_item(item@));
            r
        },
        Item::Global(g) => {
            let r = vec![g.clone()];
            assert(char_vecs(r@) =~= render_item(item@));
            r
        },
        Item::Host(h) => {
            let mut r = lines_of(&h.leading_comments);
            let ghost prev = r@;
            let c = h.raw_host_line.clone();
            r.push(c);
            proof {
                lemma_map_push(prev, c, |w: Vec<char>| w@);
            }
            let ghost base = char_vecs(r@);
            let mut i: usize = 0;
            while i < h.body.len()
                invariant
                    i <= h.body.len(),
                    char_vecs(r@) == base + body_views(h.body@).take(i as int).map_values(
                        |b: BodyLineModel| render_body_line(b),
                    ),
                decreases h.body.len() - i,
            {
                let l = h.body[i].render();
                let ghost prev = r@;
                r.push(l);
                proof {
                    lemma_map_push(prev, l, |w: Vec<char>| w@);
                    let bv = body_views(h.body@);
                    assert(bv.take(i + 1) =~= bv.take(i as int).push(h.body@[i as int]@));
                    lemma_map_push(
                        bv.take(i as int),
                        h.body@[i as int]@,
                        |b: BodyLineModel| render_body_line(b),
                    );
                }
                i += 1;
            }
            assert(body_views(h.body@).take(i as int) =~= body_views(h.body@));
            assert(char_vecs(r@) =~= render_item(item@));
            r
        },
        Item::Match(m) => {
            let mut r = lines_of(&m.leading_comments);
            let mut more = lines_of(&m.lines);
            let ghost a = r@;
            let ghost b = more@;
            r.append(&mut more);
            assert(char_vecs(r@) =~= char_vecs(a) + char_vecs(b));
            assert(char_vecs(r@) =~= render_item(item@));
            r
        },
    }
}

pub proof fn lemma_join_lines_push(ls: Seq<Seq<char>>, l: Seq<char>)
    ensures
        join_lines(ls.push(l)) == if ls.len() == 0 {
            l
        } else {
            join_lines(ls) + seq!['\n'] + l
        },
{
    assert(ls.push(l).drop_last() =~= ls);
}

impl SshConfigDocument {
    /// The document of a config file that may be missing: the parse of its
    /// text, or the empty document when there is no file yet (so that it
    /// can be edited and created on first save).
    pub fn document_or_empty(contents: Option<String>) -> (r: Self)
        ensures
            r@ == parse_m(
                match contents {
                    Some(s) => s@,
                    None => Seq::<char>::empty(),
                },
            ),
    {
        match contents {
            Some(s) => Self::parse(s.as_str()),
            None => {
                proof {
                    reveal_strlit("");
                }
                Self::parse("")
            },
        }
    }

    /// Serialize the document back to its textual form.
    pub fn to_config_string(&self) -> (r: String)
        ensures
            r@ == doc_text(self@),
    {
        let mut out: Vec<char> = Vec::new();
        let ghost mut done: Seq<Seq<char>> = seq![];
        let mut any = false;
        let mut i: usize = 0;
        while i < self.items.len()
            invariant
                i <= self.items.len(),
                any == (done.len() > 0),
                done == render_items(item_views(self.items@).take(i as int)),
                out@ == join_lines(done),
            decreases self.items.len() - i,
        {
            let ls = item_lines(&self.items[i]);
            let ghost base = done;
            let mut j: usize = 0;
            while j < ls.len()
                invariant
                    j <= ls.len(),
                    any == (done.len() > 0),
                    done == base + char_vecs(ls@).take(j as int),
                    out@ == join_lines(done),
                decreases ls.len() - j,
            {
                proof {
                    lemma_join_lines_push(done, ls@[j as int]@);
                    lemma_map_take_succ(ls@, j as int, |w: Vec<char>| w@);
                }
                if any {
                    out.push('\n');
                }
                extend(&mut out, &ls[j]);
                any = true;
                proof {
                    done = done.push(ls@[j as int]@);
                }
                assert(done =~= base + char_vecs(ls@).take(j + 1));
                j += 1;
            }
            proof {
                let iv = item_views(self.items@);
                assert(char_vecs(ls@).take(j as int) =~= char_vecs(ls@));
                lemma_map_take_succ(self.items@, i as int, |it: Item| it@);
                assert(iv.take(i + 1).drop_last() =~= iv.take(i as int));
            }
            i += 1;
        }
        assert(item_views(self.items@).take(i as int) =~= item_views(self.items@));
        if self.trailing_newline {
            out.push('\n');
        }
        assert(out@ =~= doc_text(self@));
        string_of(&out)
    }
}

// ---------------------------------------------------------------------------
// Rendering invariant of the parser
// ---------------------------------------------------------------------------
pub open spec fn render_current(c: CurrentModel) -> Seq<Seq<char>> {
    match c {
        CurrentModel::Nothing => seq![],
        CurrentModel::Host(h) => render_host(h),
        CurrentModel::Match(m) => m.leading_comments + m.lines,
    }
}

pub open spec fn render_parser(p: ParserModel) -> Seq<Seq<char>> {
    render_items(p.items) + p.pending + render_current(p.current)
}

/// Waiting comments only exist while no block is open.
pub open spec fn parser_ok(p: ParserModel) -> bool {
    p.pending.len() > 0 ==> p.current is Nothing
}

pub proof fn lemma_render_items_push(items: Seq<ItemModel>, it: ItemModel)
    ensures
        render_items(items.push(it)) == render_items(items) + render_item(it),
{
    assert(items.push(it).drop_last() =~= items);
}

pub proof fn lemma_render_items_comments(items: Seq<ItemModel>, pending: Seq<Seq<char>>)
    ensures
        render_items(items + as_comments(pending)) == render_items(items) + pending,
    decreases pending.len(),
{
    if pending.len() == 0 {
        assert(items + as_comments(pending) =~= items);
        assert(render_items(items) + pending =~= render_items(items));
    } else {
        let pl = pending.drop_last();
        lemma_render_items_comments(items, pl);
        assert(items + as_comments(pending) =~= (items + as_comments(pl)).push(
            ItemModel::Comment(pending.last()),
        ));
        lemma_render_items_push(items + as_comments(pl), ItemModel::Comment(pending.last()));
        assert(render_items(items) + pending =~= render_items(items) + pl + seq![pending.last()]);
    }
}

pub proof fn lemma_finish_flush_render(p: ParserModel)
    requires
        parser_ok(p),
    ensures
        render_items(flush_m(finish_m(p)).items) == render_parser(p),
        flush_m(finish_m(p)).current is Nothing,
        flush_m(finish_m(p)).pending.len() == 0,
{
    let q = finish_m(p);
    match p.current {
        CurrentModel::Nothing => {},
        CurrentModel::Host(h) => {
            lemma_render_items_push(p.items, ItemModel::Host(h));
        },
        CurrentModel::Match(m) => {
            lemma_render_items_push(p.items, ItemModel::Match(m));
        },
    }
    lemma_render_items_comments(q.items, q.pending);
    if p.pending.len() > 0 {
        assert(render_parser(p) =~= render_items(p.items) + p.pending);
    } else {
        assert(render_items(q.items) + q.pending =~= render_items(q.items));
        assert(render_parser(p) =~= render_items(p.items) + render_current(p.current));
    }
}

pub proof fn lemma_host_body_push(h: HostModel, b: BodyLineModel, indent: Seq<char>)
    ensures
        render_host(HostModel { indent, body: h.body.push(b), ..h }) == render_host(h).push(
            render_body_line(b),
        ),
{
    lemma_map_push(h.body, b, |b: BodyLineModel| render_body_line(b));
    assert(render_host(HostModel { indent, body: h.body.push(b), ..h }) =~= render_host(h).push(
        render_body_line(b),
    ));
}

/// Feeding a line appends it, verbatim, to the rendered lines.
pub proof fn lemma_feed_render(p: ParserModel, line: Seq<char>)
    requires
        parser_ok(p),
    ensures
        parser_ok(feed_m(p, line)),
        render_parser(feed_m(p, line)) == render_parser(p).push(line),
{
    let t = trim(line);
    let r = feed_m(p, line);
    if t.len() == 0 {
        lemma_finish_flush_render(p);
        let q = flush_m(finish_m(p));
        lemma_render_items_push(q.items, ItemModel::Blank(line));
        assert(render_parser(r) =~= render_items(q.items) + seq![line]);
        assert(render_parser(q) =~= render_items(q.items));
    } else if t[0] == '#' {
        match group_marker_of(t) {
            Some((uuid, name)) => {
                lemma_finish_flush_render(p);
                let q = flush_m(finish_m(p));
                lemma_render_items_push(q.items, ItemModel::GroupMarker { uuid, name, raw: line });
                assert(render_parser(r) =~= render_items(q.items) + seq![line]);
                assert(render_parser(q) =~= render_items(q.items));
            },
            None => {
                match (p.current, sce_kind_of(t)) {
                    (CurrentModel::Host(h), Some(kind)) => {
                        let b = BodyLineModel::Sce { raw: line, kind };
                        lemma_host_body_push(
                            h,
                            b,
                            if h.body.len() == 0 {
                                leading_of(line)
                            } else {
                                h.indent
                            },
                        );
                        assert(render_parser(r) =~= render_parser(p).push(line));
                    },
                    (CurrentModel::Host(h), None) => {
                        lemma_host_body_push(h, BodyLineModel::Raw(line), h.indent);
                        assert(render_parser(r) =~= render_parser(p).push(line));
                    },
                    (CurrentModel::Match(m), _) => {
                        assert(render_parser(r) =~= render_parser(p).push(line));
                    },
                    (CurrentModel::Nothing, _) => {
                        assert(render_parser(r) =~= render_parser(p).push(line));
                    },
                }
            },
        }
    } else {
        assert(line == line);
        let kw = first_word(t);
        let rest = rest_of(t);
        if eq_ic(kw, kw_host()) || eq_ic(kw, kw_match()) {
            let q = finish_m(p);
            match p.current {
                CurrentModel::Nothing => {},
                CurrentModel::Host(h) => {
                    lemma_render_items_push(p.items, ItemModel::Host(h));
                },
                CurrentModel::Match(m) => {
                    lemma_render_items_push(p.items, ItemModel::Match(m));
                },
            }
            if p.pending.len() > 0 {
                assert(render_parser(p) =~= render_items(p.items) + p.pending);
            } else {
                assert(render_parser(p) =~= render_items(p.items) + render_current(p.current));
            }
            assert(render_parser(r) =~= render_parser(p).push(line));
        } else {
            match p.current {
                CurrentModel::Host(h) => {
                    lemma_host_body_push(
                        h,
                        BodyLineModel::Directive { raw: line, keyword: kw, value: rest },
                        if h.body.len() == 0 {
                            leading_of(line)
                        } else {
                            h.indent
                        },
                    );
                    assert(render_parser(r) =~= render_parser(p).push(line));
                },
                CurrentModel::Match(m) => {
                    assert(render_parser(r) =~= render_parser(p).push(line));
                },
                CurrentModel::Nothing => {
                    let q = flush_m(p);
                    lemma_render_items_comments(p.items, p.pending);
                    lemma_render_items_push(q.items, ItemModel::Global(line));
                    assert(render_parser(r) =~= render_parser(p).push(line));
                },
            }
        }
    }
}

pub proof fn lemma_run_render(ls: Seq<Seq<char>>)
    ensures
        parser_ok(run_m(ls)),
        render_parser(run_m(ls)) == ls,
    decreases ls.len(),
{
    if ls.len() == 0 {
        assert(render_parser(parser_start()) =~= Seq::<Seq<char>>::empty());
        assert(ls =~= Seq::<Seq<char>>::empty());
    } else {
        lemma_run_render(ls.drop_last());
        lemma_feed_render(run_m(ls.drop_last()), ls.last());
        assert(ls =~= ls.drop_last().push(ls.last()));
    }
}

pub proof fn lemma_parse_render(content: Seq<char>)
    ensures
        render_items(parse_m(content).items) == raw_lines(content),
{
    lemma_run_render(raw_lines(content));
    lemma_finish_flush_render(run_m(raw_lines(content)));
}


// ---------------------------------------------------------------------------
// Text round trip
// ---------------------------------------------------------------------------
pub proof fn lemma_join_lines_cons(a: Seq<char>, rest: Seq<Seq<char>>)
    ensures
        join_lines(seq![a] + rest) == if rest.len() == 0 {
            a
        } else {
            a + seq!['\n'] + join_lines(rest)
        },
    decreases rest.len(),
{
    if rest.len() == 0 {
        assert(seq![a] + rest =~= seq![a]);
    } else {
        let rl = rest.drop_last();
        lemma_join_lines_cons(a, rl);
        assert((seq![a] + rest).drop_last() =~= seq![a] + rl);
        assert((seq![a] + rest).last() == rest.last());
        if rl.len() == 0 {
            assert(rest.len() == 1);
            assert(join_lines(rest) == rest[0]);
        } else {
            assert(join_lines(rest) == join_lines(rl) + seq!['\n'] + rest.last());
        }
        assert(join_lines(seq![a] + rest) =~= a + seq!['\n'] + join_lines(rest));
    }
}

pub open spec fn newline_if(b: bool) -> Seq<char> {
    if b {
        seq!['\n']
    } else {
        Seq::<char>::empty()
    }
}

/// Joining the raw lines of a text with `\n` (plus its final terminator)
/// gives the text back.
pub proof fn lemma_raw_lines_text(s: Seq<char>)
    ensures
        join_lines(raw_lines(s)) + newline_if(ends_with_newline(s)) == s,
    decreases s.len(),
{
    if s.len() == 0 {
        assert(join_lines(raw_lines(s)) + newline_if(ends_with_newline(s)) =~= s);
    } else {
        lemma_index_of(s, '\n');
        match index_of(s, '\n') {
            None => {
                assert(raw_lines(s) == seq![s]);
                assert(s.last() != '\n');
                assert(join_lines(raw_lines(s)) + newline_if(ends_with_newline(s)) =~= s);
            },
            Some(k) => {
                let a = s.take(k);
                let r = s.skip(k + 1);
                lemma_raw_lines_text(r);
                assert(raw_lines(s) == seq![a] + raw_lines(r));
                lemma_join_lines_cons(a, raw_lines(r));
                if r.len() == 0 {
                    assert(raw_lines(r) =~= Seq::<Seq<char>>::empty());
                    assert(k == s.len() - 1);
                    assert(join_lines(raw_lines(s)) + newline_if(ends_with_newline(s)) =~= s);
                } else {
                    assert(raw_lines(r).len() > 0) by {
                        lemma_index_of(r, '\n');
                    }
                    assert(ends_with_newline(s) == ends_with_newline(r));
                    assert(join_lines(raw_lines(s)) + newline_if(ends_with_newline(s)) =~= a + seq![
                        '\n',
                    ] + (join_lines(raw_lines(r)) + newline_if(ends_with_newline(r))));
                    assert(s =~= a + seq!['\n'] + r);
                }
            },
        }
    }
}

/// Parsing a config text and serializing the document gives the text back
/// byte for byte: comments, blank lines, indentation, `\r` characters and
/// the final line terminator are all kept.
pub proof fn config_text_round_trip(content: Seq<char>)
    ensures
        doc_text(parse_m(content)) == content,
{
    lemma_parse_render(content);
    lemma_raw_lines_text(content);
}

/// Serializing a parsed document, parsing that text and serializing it
/// again gives the same text: a second round trip changes nothing.
pub proof fn config_text_idempotent(content: Seq<char>)
    ensures
        doc_text(parse_m(doc_text(parse_m(content)))) == doc_text(parse_m(content)),
{
    config_text_round_trip(content);
}

/// A group marker line is read whole: parsing `#SCE_GROUP:<u>:::<n>` gives
/// one group, with uuid `u` and name `n` — all of `n`, spaces included —
/// for a `u` without `:` and a name that does not end in whitespace, on a
/// single line.
pub proof fn group_marker_is_read_whole(u: Seq<char>, n: Seq<char>)
    requires
        !u.contains(':'),
        !u.contains('\n'),
        !n.contains('\n'),
        n.len() > 0 ==> !is_ws(n.last()),
    ensures
        groups_m(parse_m(group_prefix() + u + triple_colon() + n).items) == seq![(u, n)],
{
    let line = group_prefix() + u + triple_colon() + n;
    assert forall|j: int| 0 <= j < line.len() implies line[j] != '\n' by {
        if 11 <= j < 11 + u.len() {
            assert(line[j] == u[j - 11]);
        } else if j >= 14 + u.len() {
            assert(line[j] == n[j - 14 - u.len()]);
        }
    }
    lemma_index_of_at(line, '\n', line.len() as int);
    assert(raw_lines(line) == seq![line]);
    // The line is its own trimmed text.
    assert(!is_ws(line[0]));
    if n.len() > 0 {
        assert(line[line.len() - 1] == n.last());
    } else {
        assert(line[line.len() - 1] == ':');
    }
    lemma_trim_bounds(line, 0, line.len() as int);
    assert(line.subrange(0, line.len() as int) =~= line);
    let t = trim(line);
    assert(t == line);
    // The uuid ends at the first `:::`.
    let rest = t.skip(11);
    assert(rest =~= u + triple_colon() + n);
    assert(rest.subrange(u.len() as int, u.len() + 3int) =~= triple_colon());
    assert forall|j: int| 0 <= j < u.len() implies rest[j] != triple_colon()[0] by {
        assert(rest[j] == u[j]);
    }
    lemma_index_of_seq_at(rest, triple_colon(), u.len() as int);
    assert(t.take(11) =~= group_prefix());
    assert(rest.take(u.len() as int) =~= u);
    assert(rest.skip(u.len() + 3int) =~= n);
    assert(group_marker_of(t) == Some((u, n)));
    let ls = seq![line];
    assert(ls.drop_last() =~= Seq::<Seq<char>>::empty());
    assert(ls.last() == line);
    let marker = ItemModel::GroupMarker { uuid: u, name: n, raw: line };
    let p = run_m(ls);
    assert(run_m(ls.drop_last()) == parser_start());
    assert(p == feed_m(parser_start(), line));
    assert(as_comments(Seq::<Seq<char>>::empty()) =~= Seq::<ItemModel>::empty());
    assert(Seq::<ItemModel>::empty() + Seq::<ItemModel>::empty() =~= Seq::<ItemModel>::empty());
    assert(p.items =~= seq![marker]);
    assert(p.items + as_comments(p.pending) =~= seq![marker]);
    assert(parse_m(line).items == seq![marker]);
    lemma_filter_map_single(marker, |it: ItemModel| group_of_item(it));
}

// ---------------------------------------------------------------------------
// Decoding hosts
// ---------------------------------------------------------------------------
pub open spec fn kw_hostname() -> Seq<char> {
    seq!['H', 'o', 's', 't', 'N', 'a', 'm', 'e']
}

pub open spec fn kw_user() -> Seq<char> {
    seq!['U', 's', 'e', 'r']
}

pub open spec fn kw_port() -> Seq<char> {
    seq!['P', 'o', 'r', 't']
}

pub open spec fn kw_identity_file() -> Seq<char> {
    seq!['I', 'd', 'e', 'n', 't', 'i', 't', 'y', 'F', 'i', 'l', 'e']
}

pub open spec fn kw_proxy_jump() -> Seq<char> {
    seq!['P', 'r', 'o', 'x', 'y', 'J', 'u', 'm', 'p']
}

pub open spec fn kw_local_forward() -> Seq<char> {
    seq!['L', 'o', 'c', 'a', 'l', 'F', 'o', 'r', 'w', 'a', 'r', 'd']
}

pub open spec fn kw_remote_forward() -> Seq<char> {
    seq!['R', 'e', 'm', 'o', 't', 'e', 'F', 'o', 'r', 'w', 'a', 'r', 'd']
}

pub open spec fn kw_dynamic_forward() -> Seq<char> {
    seq!['D', 'y', 'n', 'a', 'm', 'i', 'c', 'F', 'o', 'r', 'w', 'a', 'r', 'd']
}

/// The direction a forward directive keyword denotes.
pub open spec fn forward_kind_of(kw: Seq<char>) -> Option<PortForwardKind> {
    if eq_ic(kw, kw_local_forward()) {
        Some(PortForwardKind::Local)
    } else if eq_ic(kw, kw_remote_forward()) {
        Some(PortForwardKind::Remote)
    } else if eq_ic(kw, kw_dynamic_forward()) {
        Some(PortForwardKind::Dynamic)
    } else {
        None
    }
}

/// The canonical keyword of a forward direction.
pub open spec fn forward_keyword_of(k: PortForwardKind) -> Seq<char> {
    match k {
        PortForwardKind::Local => kw_local_forward(),
        PortForwardKind::Remote => kw_remote_forward(),
        PortForwardKind::Dynamic => kw_dynamic_forward(),
    }
}

/// The value of a body line if it is a directive with keyword `kw`.
pub open spec fn directive_value(b: BodyLineModel, kw: Seq<char>) -> Option<Seq<char>> {
    match b {
        BodyLineModel::Directive { keyword, value, .. } => if eq_ic(keyword, kw) {
            Some(value)
        } else {
            None
        },
        _ => None,
    }
}

/// The values of all directives with keyword `kw`, in order.
pub open spec fn directive_values(body: Seq<BodyLineModel>, kw: Seq<char>) -> Seq<Seq<char>> {
    body.filter_map(|b: BodyLineModel| directive_value(b, kw))
}

pub open spec fn forward_of(b: BodyLineModel) -> Option<(PortForwardKind, Seq<char>)> {
    match b {
        BodyLineModel::Directive { keyword, value, .. } => match forward_kind_of(keyword) {
            Some(k) => Some((k, value)),
            None => None,
        },
        _ => None,
    }
}

/// The forward directives of a body, in order.
pub open spec fn forwards_of(body: Seq<BodyLineModel>) -> Seq<(PortForwardKind, Seq<char>)> {
    body.filter_map(|b: BodyLineModel| forward_of(b))
}

/// Which SCE body directive a setter or reader refers to.
#[derive(Clone, Copy, PartialEq, Eq, Structural)]
pub enum SceKindTag {
    Group,
    Icon,
    Tags,
}

pub open spec fn sce_value(b: BodyLineModel, tag: SceKindTag) -> Option<Seq<char>> {
    match b {
        BodyLineModel::Sce { kind, .. } => match (tag, kind) {
            (SceKindTag::Group, SceKindModel::Group(v)) => Some(v),
            (SceKindTag::Icon, SceKindModel::Icon(v)) => Some(v),
            (SceKindTag::Tags, SceKindModel::Tags(v)) => Some(v),
            _ => None,
        },
        _ => None,
    }
}

/// The values of all SCE lines of one kind, in order.
pub open spec fn sce_values(body: Seq<BodyLineModel>, tag: SceKindTag) -> Seq<Seq<char>> {
    body.filter_map(|b: BodyLineModel| sce_value(b, tag))
}

pub open spec fn first_of(s: Seq<Seq<char>>) -> Option<Seq<char>> {
    if s.len() > 0 {
        Some(s[0])
    } else {
        None
    }
}

/// The first value that parses as a port.
pub open spec fn first_port(vs: Seq<Seq<char>>) -> Option<u16>
    decreases vs.len(),
{
    if vs.len() == 0 {
        None
    } else {
        match crate::text::parse_u16(vs[0]) {
            Some(p) => Some(p),
            None => first_port(vs.drop_first()),
        }
    }
}

/// Number of leading `#` characters.
pub open spec fn lead_hashes(s: Seq<char>) -> nat
    decreases s.len(),
{
    if s.len() > 0 && s[0] == '#' {
        1 + lead_hashes(s.drop_first())
    } else {
        0
    }
}

/// The description a comment line encodes: leading whitespace and `#`s
/// removed, then trimmed.
pub open spec fn description_of(c: Seq<char>) -> Seq<char> {
    let s = trim_start(c);
    trim(s.skip(lead_hashes(s) as int))
}

/// A read-only decoding of a host block.
pub ghost struct HostViewModel {
    pub patterns: Seq<Seq<char>>,
    pub hostname: Option<Seq<char>>,
    pub user: Option<Seq<char>>,
    pub port: Option<u16>,
    pub identity_file: Option<Seq<char>>,
    pub proxy_jump: Option<Seq<char>>,
    pub forwards: Seq<(PortForwardKind, Seq<char>)>,
    pub group: Option<Seq<char>>,
    pub icon: Option<Seq<char>>,
    pub color: Option<Seq<char>>,
    pub description: Option<Seq<char>>,
}

/// What a host block says: the first value of each directive (for `Port`,
/// the first that parses), every forward, the first of each SCE kind, and
/// the description from the last comment line above the block.
pub open spec fn host_view_of(h: HostModel) -> HostViewModel {
    HostViewModel {
        patterns: h.patterns,
        hostname: first_of(directive_values(h.body, kw_hostname())),
        user: first_of(directive_values(h.body, kw_user())),
        port: first_port(directive_values(h.body, kw_port())),
        identity_file: first_of(directive_values(h.body, kw_identity_file())),
        proxy_jump: first_of(directive_values(h.body, kw_proxy_jump())),
        forwards: forwards_of(h.body),
        group: first_of(sce_values(h.body, SceKindTag::Group)),
        icon: first_of(sce_values(h.body, SceKindTag::Icon)),
        color: first_of(sce_values(h.body, SceKindTag::Tags)),
        description: if h.leading_comments.len() > 0 {
            Some(description_of(h.leading_comments.last()))
        } else {
            None
        },
    }
}

/// Whether an item is a host block carrying the pattern `alias`.
pub open spec fn is_host_for(it: ItemModel, alias: Seq<char>) -> bool {
    match it {
        ItemModel::Host(h) => h.patterns.contains(alias),
        _ => false,
    }
}

/// Index of the first host block carrying the pattern `alias`.
pub open spec fn host_index(items: Seq<ItemModel>, alias: Seq<char>) -> Option<int>
    decreases items.len(),
{
    if items.len() == 0 {
        None
    } else if is_host_for(items[0], alias) {
        Some(0)
    } else {
        match host_index(items.drop_first(), alias) {
            Some(k) => Some(k + 1),
            None => None,
        }
    }
}

pub proof fn lemma_host_index(items: Seq<ItemModel>, alias: Seq<char>)
    ensures
        host_index(items, alias) matches Some(k) ==> 0 <= k < items.len() && is_host_for(
            items[k],
            alias,
        ) && forall|j: int| 0 <= j < k ==> !is_host_for(#[trigger] items[j], alias),
        host_index(items, alias) is None ==> forall|j: int|
            0 <= j < items.len() ==> !is_host_for(#[trigger] items[j], alias),
    decreases items.len(),
{
    if items.len() > 0 && !is_host_for(items[0], alias) {
        lemma_host_index(items.drop_first(), alias);
        assert forall|j: int| 1 <= j < items.len() implies items[j] == items.drop_first()[j
            - 1] by {}
    }
}

pub proof fn lemma_host_index_at(items: Seq<ItemModel>, alias: Seq<char>, k: int)
    requires
        0 <= k <= items.len(),
        forall|j: int| 0 <= j < k ==> !is_host_for(#[trigger] items[j], alias),
        k < items.len() ==> is_host_for(items[k], alias),
    ensures
        host_index(items, alias) == (if k < items.len() {
            Some(k)
        } else {
            None::<int>
        }),
    decreases k,
{
    if k > 0 {
        assert forall|j: int| 0 <= j < k - 1 implies !is_host_for(
            #[trigger] items.drop_first()[j],
            alias,
        ) by {
            assert(items.drop_first()[j] == items[j + 1]);
        }
        if k < items.len() {
            assert(items.drop_first()[k - 1] == items[k]);
        }
        lemma_host_index_at(items.drop_first(), alias, k - 1);
    }
}

pub open spec fn host_at(items: Seq<ItemModel>, i: int) -> HostModel {
    match items[i] {
        ItemModel::Host(h) => h,
        _ => arbitrary(),
    }
}

/// The decoded view of the first host carrying `alias`.
pub open spec fn host_view_m(d: DocModel, alias: Seq<char>) -> Option<HostViewModel> {
    match host_index(d.items, alias) {
        Some(i) => Some(host_view_of(host_at(d.items, i))),
        None => None,
    }
}

pub open spec fn alias_of_item(it: ItemModel) -> Option<Seq<char>> {
    match it {
        ItemModel::Host(h) => if h.patterns.len() > 0 {
            Some(h.patterns[0])
        } else {
            None
        },
        _ => None,
    }
}

/// The first pattern of every host block, in order.
pub open spec fn host_aliases_m(items: Seq<ItemModel>) -> Seq<Seq<char>> {
    items.filter_map(|it: ItemModel| alias_of_item(it))
}

pub open spec fn group_of_item(it: ItemModel) -> Option<(Seq<char>, Seq<char>)> {
    match it {
        ItemModel::GroupMarker { uuid, name, .. } => Some((uuid, name)),
        _ => None,
    }
}

/// `(uuid, name)` of every group marker, in order.
pub open spec fn groups_m(items: Seq<ItemModel>) -> Seq<(Seq<char>, Seq<char>)> {
    items.filter_map(|it: ItemModel| group_of_item(it))
}

pub ghost enum OutlineModel {
    Group { uuid: Seq<char>, name: Seq<char> },
    Host { alias: Seq<char>, group: Option<Seq<char>> },
}

pub open spec fn outline_of_item(it: ItemModel) -> Option<OutlineModel> {
    match it {
        ItemModel::GroupMarker { uuid, name, .. } => Some(OutlineModel::Group { uuid, name }),
        ItemModel::Host(h) => if h.patterns.len() > 0 {
            Some(
                OutlineModel::Host {
                    alias: h.patterns[0],
                    group: first_of(sce_values(h.body, SceKindTag::Group)),
                },
            )
        } else {
            None
        },
        _ => None,
    }
}

/// Group markers and hosts (by first pattern) in document order.
pub open spec fn outline_m(items: Seq<ItemModel>) -> Seq<OutlineModel> {
    items.filter_map(|it: ItemModel| outline_of_item(it))
}


pub proof fn lemma_first_of_add(xs: Seq<Seq<char>>, ys: Seq<Seq<char>>)
    ensures
        first_of(xs + ys) == if xs.len() > 0 {
            first_of(xs)
        } else {
            first_of(ys)
        },
{
    if xs.len() > 0 {
        assert((xs + ys)[0] == xs[0]);
    } else {
        assert(xs + ys =~= ys);
    }
}

pub proof fn lemma_first_port_add(xs: Seq<Seq<char>>, ys: Seq<Seq<char>>)
    ensures
        first_port(xs + ys) == match first_port(xs) {
            Some(p) => Some(p),
            None => first_port(ys),
        },
    decreases xs.len(),
{
    if xs.len() == 0 {
        assert(xs + ys =~= ys);
    } else {
        assert((xs + ys)[0] == xs[0]);
        assert((xs + ys).drop_first() =~= xs.drop_first() + ys);
        lemma_first_port_add(xs.drop_first(), ys);
    }
}

proof fn lemma_kw_excl(kw: Seq<char>, a: Seq<char>, b: Seq<char>, i: int)
    requires
        a.len() != b.len() || (0 <= i < a.len() && i < b.len() && crate::text::lower(a[i])
            != crate::text::lower(b[i])),
    ensures
        eq_ic(kw, a) ==> !eq_ic(kw, b),
        eq_ic(kw, b) ==> !eq_ic(kw, a),
{
    if eq_ic(kw, a) {
        if a.len() != b.len() {
            crate::text::lemma_eq_ic_len(kw, a, b);
        } else {
            crate::text::lemma_eq_ic_exclusive(kw, a, b, i);
        }
    }
    if eq_ic(kw, b) {
        if a.len() != b.len() {
            crate::text::lemma_eq_ic_len(kw, b, a);
        } else {
            crate::text::lemma_eq_ic_exclusive(kw, b, a, i);
        }
    }
}

/// The keywords the editor manages are pairwise distinct, also ignoring
/// ASCII case, so a directive counts for at most one of them.
pub proof fn lemma_managed_keywords_distinct(kw: Seq<char>)
    ensures
        eq_ic(kw, kw_hostname()) ==> !eq_ic(kw, kw_user()) && !eq_ic(kw, kw_port()) && !eq_ic(
            kw,
            kw_identity_file(),
        ) && !eq_ic(kw, kw_proxy_jump()) && forward_kind_of(kw) is None,
        eq_ic(kw, kw_user()) ==> !eq_ic(kw, kw_hostname()) && !eq_ic(kw, kw_port()) && !eq_ic(
            kw,
            kw_identity_file(),
        ) && !eq_ic(kw, kw_proxy_jump()) && forward_kind_of(kw) is None,
        eq_ic(kw, kw_port()) ==> !eq_ic(kw, kw_hostname()) && !eq_ic(kw, kw_user()) && !eq_ic(
            kw,
            kw_identity_file(),
        ) && !eq_ic(kw, kw_proxy_jump()) && forward_kind_of(kw) is None,
        eq_ic(kw, kw_identity_file()) ==> !eq_ic(kw, kw_hostname()) && !eq_ic(kw, kw_user())
            && !eq_ic(kw, kw_port()) && !eq_ic(kw, kw_proxy_jump()) && forward_kind_of(kw) is None,
        eq_ic(kw, kw_proxy_jump()) ==> !eq_ic(kw, kw_hostname()) && !eq_ic(kw, kw_user())
            && !eq_ic(kw, kw_port()) && !eq_ic(kw, kw_identity_file()) && forward_kind_of(kw) is None,
        forward_kind_of(kw) is Some ==> !eq_ic(kw, kw_hostname()) && !eq_ic(kw, kw_user())
            && !eq_ic(kw, kw_port()) && !eq_ic(kw, kw_identity_file()) && !eq_ic(kw, kw_proxy_jump()),
{
    lemma_kw_excl(kw, kw_hostname(), kw_user(), 0);
    lemma_kw_excl(kw, kw_hostname(), kw_port(), 0);
    lemma_kw_excl(kw, kw_hostname(), kw_identity_file(), 0);
    lemma_kw_excl(kw, kw_hostname(), kw_proxy_jump(), 0);
    lemma_kw_excl(kw, kw_hostname(), kw_local_forward(), 0);
    lemma_kw_excl(kw, kw_hostname(), kw_remote_forward(), 0);
    lemma_kw_excl(kw, kw_hostname(), kw_dynamic_forward(), 0);
    lemma_kw_excl(kw, kw_user(), kw_port(), 1);
    lemma_kw_excl(kw, kw_user(), kw_identity_file(), 0);
    lemma_kw_excl(kw, kw_user(), kw_proxy_jump(), 0);
    lemma_kw_excl(kw, kw_user(), kw_local_forward(), 0);
    lemma_kw_excl(kw, kw_user(), kw_remote_forward(), 0);
    lemma_kw_excl(kw, kw_user(), kw_dynamic_forward(), 0);
    lemma_kw_excl(kw, kw_port(), kw_identity_file(), 0);
    lemma_kw_excl(kw, kw_port(), kw_proxy_jump(), 0);
    lemma_kw_excl(kw, kw_port(), kw_local_forward(), 0);
    lemma_kw_excl(kw, kw_port(), kw_remote_forward(), 0);
    lemma_kw_excl(kw, kw_port(), kw_dynamic_forward(), 0);
    lemma_kw_excl(kw, kw_identity_file(), kw_proxy_jump(), 0);
    lemma_kw_excl(kw, kw_identity_file(), kw_local_forward(), 1);
    lemma_kw_excl(kw, kw_identity_file(), kw_remote_forward(), 0);
    lemma_kw_excl(kw, kw_identity_file(), kw_dynamic_forward(), 0);
    lemma_kw_excl(kw, kw_proxy_jump(), kw_local_forward(), 0);
    lemma_kw_excl(kw, kw_proxy_jump(), kw_remote_forward(), 0);
    lemma_kw_excl(kw, kw_proxy_jump(), kw_dynamic_forward(), 0);
}


// ---------------------------------------------------------------------------
// Public value types
// ---------------------------------------------------------------------------
/// A group (folder) declared by a `#SCE_GROUP` marker.
#[derive(Clone, Debug, PartialEq, Eq)]
pub struct Group {
    pub uuid: String,
    pub name: String,
}

impl View for Group {
    type V = (Seq<char>, Seq<char>);

    open spec fn view(&self) -> (Seq<char>, Seq<char>) {
        (self.uuid@, self.name@)
    }
}

/// A port-forward directive as stored in the config: the keyword's
/// direction plus the verbatim spec value (e.g. `"9999 localhost:9000"`).
#[derive(Clone, Debug, PartialEq, Eq)]
pub struct ForwardEntry {
    pub kind: PortForwardKind,
    pub spec: String,
}

impl View for ForwardEntry {
    type V = (PortForwardKind, Seq<char>);

    open spec fn view(&self) -> (PortForwardKind, Seq<char>) {
        (self.kind, self.spec@)
    }
}

pub open spec fn forward_views(v: Seq<ForwardEntry>) -> Seq<(PortForwardKind, Seq<char>)> {
    v.map_values(|f: ForwardEntry| f@)
}

pub open spec fn string_views(v: Seq<String>) -> Seq<Seq<char>> {
    v.map_values(|s: String| s@)
}

/// The SSH directives the editor manages for a host (see
/// [`SshConfigDocument::upsert_host`]). Each scalar is `Some` to set or replace
/// the directive and `None` to remove it; `forwards` replaces the host's
/// forward directives. SCE metadata is deliberately not part of it.
#[derive(Clone, Debug, PartialEq, Eq)]
pub struct CoreHostFields {
    pub hostname: Option<String>,
    pub user: Option<String>,
    pub port: Option<u16>,
    pub identity_file: Option<String>,
    pub proxy_jump: Option<String>,
    pub forwards: Vec<ForwardEntry>,
}

pub ghost struct CoreFieldsModel {
    pub hostname: Option<Seq<char>>,
    pub user: Option<Seq<char>>,
    pub port: Option<u16>,
    pub identity_file: Option<Seq<char>>,
    pub proxy_jump: Option<Seq<char>>,
    pub forwards: Seq<(PortForwardKind, Seq<char>)>,
}

impl View for CoreHostFields {
    type V = CoreFieldsModel;

    open spec fn view(&self) -> CoreFieldsModel {
        CoreFieldsModel {
            hostname: opt_str(self.hostname),
            user: opt_str(self.user),
            port: self.port,
            identity_file: opt_str(self.identity_file),
            proxy_jump: opt_str(self.proxy_jump),
            forwards: forward_views(self.forwards@),
        }
    }
}

impl Default for CoreHostFields {
    fn default() -> (r: Self)
        ensures
            r@.hostname is None,
            r@.user is None,
            r@.port is None,
            r@.identity_file is None,
            r@.proxy_jump is None,
            r@.forwards.len() == 0,
    {
        CoreHostFields {
            hostname: None,
            user: None,
            port: None,
            identity_file: None,
            proxy_jump: None,
            forwards: Vec::new(),
        }
    }
}

/// A top-level entry in document order, used to build the grouped tree.
#[derive(Clone, Debug, PartialEq, Eq)]
pub enum OutlineEntry {
    /// A `#SCE_GROUP` marker (folder).
    Group { uuid: String, name: String },
    /// A host and its declared group membership (`None` = ungrouped / root).
    Host { alias: String, group: Option<String> },
}

impl View for OutlineEntry {
    type V = OutlineModel;

    open spec fn view(&self) -> OutlineModel {
        match self {
            OutlineEntry::Group { uuid, name } => OutlineModel::Group { uuid: uuid@, name: name@ },
            OutlineEntry::Host { alias, group } => OutlineModel::Host {
                alias: alias@,
                group: opt_str(*group),
            },
        }
    }
}

/// A read-only snapshot of a host block, decoded for the UI / tests.
#[derive(Clone, Debug, PartialEq, Eq)]
pub struct HostView {
    /// The literal `Host` patterns (wildcards included), in order.
    pub patterns: Vec<String>,
    pub hostname: Option<String>,
    pub user: Option<String>,
    pub port: Option<u16>,
    pub identity_file: Option<String>,
    pub proxy_jump: Option<String>,
    pub forwards: Vec<ForwardEntry>,
    pub group: Option<String>,
    pub icon: Option<String>,
    pub color: Option<String>,
    pub description: Option<String>,
}

impl View for HostView {
    type V = HostViewModel;

    open spec fn view(&self) -> HostViewModel {
        HostViewModel {
            patterns: string_views(self.patterns@),
            hostname: opt_str(self.hostname),
            user: opt_str(self.user),
            port: self.port,
            identity_file: opt_str(self.identity_file),
            proxy_jump: opt_str(self.proxy_jump),
            forwards: forward_views(self.forwards@),
            group: opt_str(self.group),
            icon: opt_str(self.icon),
            color: opt_str(self.color),
            description: opt_str(self.description),
        }
    }
}

fn opt_string_of(o: &Option<Vec<char>>) -> (r: Option<String>)
    ensures
        opt_str(r) == opt_chars_of(*o),
{
    match o {
        Some(v) => Some(string_of(v)),
        None => None,
    }
}

fn strings_of(v: &Vec<Vec<char>>) -> (r: Vec<String>)
    ensures
        string_views(r@) == char_vecs(v@),
{
    let mut r: Vec<String> = Vec::new();
    let mut i: usize = 0;
    while i < v.len()
        invariant
            i <= v.len(),
            string_views(r@) == char_vecs(v@.take(i as int)),
        decreases v.len() - i,
    {
        let s = string_of(&v[i]);
        let ghost prev = r@;
        r.push(s);
        proof {
            lemma_map_push(prev, s, |s: String| s@);
            lemma_map_take_succ(v@, i as int, |w: Vec<char>| w@);
        }
        i += 1;
    }
    assert(v@.take(i as int) =~= v@);
    r
}

fn keyword_vec(which: u8) -> (r: Vec<char>)
    requires
        which < 8,
    ensures
        which == 0 ==> r@ == kw_hostname(),
        which == 1 ==> r@ == kw_user(),
        which == 2 ==> r@ == kw_port(),
        which == 3 ==> r@ == kw_identity_file(),
        which == 4 ==> r@ == kw_proxy_jump(),
        which == 5 ==> r@ == kw_local_forward(),
        which == 6 ==> r@ == kw_remote_forward(),
        which == 7 ==> r@ == kw_dynamic_forward(),
{
    if which == 0 {
        vec!['H', 'o', 's', 't', 'N', 'a', 'm', 'e']
    } else if which == 1 {
        vec!['U', 's', 'e', 'r']
    } else if which == 2 {
        vec!['P', 'o', 'r', 't']
    } else if which == 3 {
        vec!['I', 'd', 'e', 'n', 't', 'i', 't', 'y', 'F', 'i', 'l', 'e']
    } else if which == 4 {
        vec!['P', 'r', 'o', 'x', 'y', 'J', 'u', 'm', 'p']
    } else if which == 5 {
        vec!['L', 'o', 'c', 'a', 'l', 'F', 'o', 'r', 'w', 'a', 'r', 'd']
    } else if which == 6 {
        vec!['R', 'e', 'm', 'o', 't', 'e', 'F', 'o', 'r', 'w', 'a', 'r', 'd']
    } else {
        vec!['D', 'y', 'n', 'a', 'm', 'i', 'c', 'F', 'o', 'r', 'w', 'a', 'r', 'd']
    }
}

/// `LocalForward` / `RemoteForward` / `DynamicForward` (any case) → direction.
fn forward_kind_from_keyword(kw: &Vec<char>) -> (r: Option<PortForwardKind>)
    ensures
        r == forward_kind_of(kw@),
{
    if eq_ignore_case(kw, &keyword_vec(5)) {
        Some(PortForwardKind::Local)
    } else if eq_ignore_case(kw, &keyword_vec(6)) {
        Some(PortForwardKind::Remote)
    } else if eq_ignore_case(kw, &keyword_vec(7)) {
        Some(PortForwardKind::Dynamic)
    } else {
        None
    }
}

/// Whether `kw` is one of the forward keywords (any case).
fn is_forward_keyword(kw: &Vec<char>) -> (b: bool)
    ensures
        b == forward_kind_of(kw@) is Some,
{
    forward_kind_from_keyword(kw).is_some()
}

/// The canonical keyword of a forward direction.
fn forward_keyword(kind: PortForwardKind) -> (r: Vec<char>)
    ensures
        r@ == forward_keyword_of(kind),
{
    match kind {
        PortForwardKind::Local => keyword_vec(5),
        PortForwardKind::Remote => keyword_vec(6),
        PortForwardKind::Dynamic => keyword_vec(7),
    }
}

/// The description a comment line encodes.
fn comment_description(c: &Vec<char>) -> (r: Vec<char>)
    ensures
        r@ == description_of(c@),
{
    let s = trim_start_chars(c);
    let mut k: usize = 0;
    while k < s.len() && s[k] == '#'
        invariant
            k <= s.len(),
            forall|j: int| 0 <= j < k ==> s@[j] == '#',
        decreases s.len() - k,
    {
        k += 1;
    }
    proof {
        lemma_lead_hashes_at(s@, k as int);
    }
    let rest = slice_of(&s, k, s.len());
    assert(rest@ =~= s@.skip(k as int));
    trim_chars(&rest)
}

pub proof fn lemma_lead_hashes_at(s: Seq<char>, k: int)
    requires
        0 <= k <= s.len(),
        forall|j: int| 0 <= j < k ==> s[j] == '#',
        k < s.len() ==> s[k] != '#',
    ensures
        lead_hashes(s) == k,
    decreases k,
{
    if k > 0 {
        assert forall|j: int| 0 <= j < k - 1 implies s.drop_first()[j] == '#' by {
            assert(s.drop_first()[j] == s[j + 1]);
        }
        if k < s.len() {
            assert(s.drop_first()[k - 1] == s[k]);
        }
        lemma_lead_hashes_at(s.drop_first(), k - 1);
    }
}

impl HostBlock {
    /// Decode the block.
    fn to_view(&self) -> (r: HostView)
        ensures
            r@ == host_view_of(self@),
    {
        let ghost body = body_views(self.body@);
        let mut hostname: Option<Vec<char>> = None;
        let mut user: Option<Vec<char>> = None;
        let mut port: Option<u16> = None;
        let mut identity_file: Option<Vec<char>> = None;
        let mut proxy_jump: Option<Vec<char>> = None;
        let mut forwards: Vec<ForwardEntry> = Vec::new();
        let mut group: Option<Vec<char>> = None;
        let mut icon: Option<Vec<char>> = None;
        let mut color: Option<Vec<char>> = None;
        let mut i: usize = 0;
        assert(body.take(0) =~= Seq::<BodyLineModel>::empty());
        while i < self.body.len()
            invariant
                i <= self.body.len(),
                body == body_views(self.body@),
                opt_chars_of(hostname) == first_of(directive_values(body.take(i as int), kw_hostname())),
                opt_chars_of(user) == first_of(directive_values(body.take(i as int), kw_user())),
                port == first_port(directive_values(body.take(i as int), kw_port())),
                opt_chars_of(identity_file) == first_of(
                    directive_values(body.take(i as int), kw_identity_file()),
                ),
                opt_chars_of(proxy_jump) == first_of(directive_values(body.take(i as int), kw_proxy_jump())),
                forward_views(forwards@) == forwards_of(body.take(i as int)),
                opt_chars_of(group) == first_of(sce_values(body.take(i as int), SceKindTag::Group)),
                opt_chars_of(icon) == first_of(sce_values(body.take(i as int), SceKindTag::Icon)),
                opt_chars_of(color) == first_of(sce_values(body.take(i as int), SceKindTag::Tags)),
            decreases self.body.len() - i,
        {
            let ghost b = body[i as int];
            let ghost pre = body.take(i as int);
            proof {
                assert(b == self.body@[i as int]@);
                lemma_map_take_succ(self.body@, i as int, |b: BodyLine| b@);
                assert(body.take(i + 1) =~= pre + seq![b]);
                lemma_filter_map_add(pre, seq![b], |b: BodyLineModel| directive_value(b, kw_hostname()));
                lemma_filter_map_add(pre, seq![b], |b: BodyLineModel| directive_value(b, kw_user()));
                lemma_filter_map_add(pre, seq![b], |b: BodyLineModel| directive_value(b, kw_port()));
                lemma_filter_map_add(pre, seq![b], |b: BodyLineModel| directive_value(b, kw_identity_file()));
                lemma_filter_map_add(pre, seq![b], |b: BodyLineModel| directive_value(b, kw_proxy_jump()));
                lemma_filter_map_add(pre, seq![b], |b: BodyLineModel| forward_of(b));
                lemma_filter_map_add(pre, seq![b], |b: BodyLineModel| sce_value(b, SceKindTag::Group));
                lemma_filter_map_add(pre, seq![b], |b: BodyLineModel| sce_value(b, SceKindTag::Icon));
                lemma_filter_map_add(pre, seq![b], |b: BodyLineModel| sce_value(b, SceKindTag::Tags));
                lemma_filter_map_single(b, |b: BodyLineModel| directive_value(b, kw_hostname()));
                lemma_filter_map_single(b, |b: BodyLineModel| directive_value(b, kw_user()));
                lemma_filter_map_single(b, |b: BodyLineModel| directive_value(b, kw_port()));
                lemma_filter_map_single(b, |b: BodyLineModel| directive_value(b, kw_identity_file()));
                lemma_filter_map_single(b, |b: BodyLineModel| directive_value(b, kw_proxy_jump()));
                lemma_filter_map_single(b, |b: BodyLineModel| forward_of(b));
                lemma_filter_map_single(b, |b: BodyLineModel| sce_value(b, SceKindTag::Group));
                lemma_filter_map_single(b, |b: BodyLineModel| sce_value(b, SceKindTag::Icon));
                lemma_filter_map_single(b, |b: BodyLineModel| sce_value(b, SceKindTag::Tags));
                lemma_first_of_add(directive_values(pre, kw_hostname()), directive_values(seq![b], kw_hostname()));
                lemma_first_of_add(directive_values(pre, kw_user()), directive_values(seq![b], kw_user()));
                lemma_first_port_add(directive_values(pre, kw_port()), directive_values(seq![b], kw_port()));
                lemma_first_of_add(directive_values(pre, kw_identity_file()), directive_values(seq![b], kw_identity_file()));
                lemma_first_of_add(directive_values(pre, kw_proxy_jump()), directive_values(seq![b], kw_proxy_jump()));
                lemma_first_of_add(sce_values(pre, SceKindTag::Group), sce_values(seq![b], SceKindTag::Group));
                lemma_first_of_add(sce_values(pre, SceKindTag::Icon), sce_values(seq![b], SceKindTag::Icon));
                lemma_first_of_add(sce_values(pre, SceKindTag::Tags), sce_values(seq![b], SceKindTag::Tags));
            }
            match &self.body[i] {
                BodyLine::Directive { keyword, value, .. } => {
                    proof {
                        lemma_managed_keywords_distinct(keyword@);
                        reveal_with_fuel(first_port, 2);
                    }
                    if eq_ignore_case(keyword, &keyword_vec(0)) {
                        if hostname.is_none() {
                            hostname = Some(value.clone());
                        }
                    } else if eq_ignore_case(keyword, &keyword_vec(1)) {
                        if user.is_none() {
                            user = Some(value.clone());
                        }
                    } else if eq_ignore_case(keyword, &keyword_vec(2)) {
                        if port.is_none() {
                            port = crate::text::parse_u16_chars(value);
                        }
                    } else if eq_ignore_case(keyword, &keyword_vec(3)) {
                        if identity_file.is_none() {
                            identity_file = Some(value.clone());
                        }
                    } else if eq_ignore_case(keyword, &keyword_vec(4)) {
                        if proxy_jump.is_none() {
                            proxy_jump = Some(value.clone());
                        }
                    } else {
                        match forward_kind_from_keyword(keyword) {
                            Some(kind) => {
                                let e = ForwardEntry { kind, spec: string_of(value) };
                                let ghost prev = forwards@;
                                forwards.push(e);
                                proof {
                                    lemma_map_push(prev, e, |f: ForwardEntry| f@);
                                }
                            },
                            None => {},
                        }
                    }
                },
                BodyLine::Sce { kind, .. } => {
                    match kind {
                        SceKind::Group(g) => {
                            if group.is_none() {
                                group = Some(g.clone());
                            }
                        },
                        SceKind::Icon(g) => {
                            if icon.is_none() {
                                icon = Some(g.clone());
                            }
                        },
                        SceKind::Tags(g) => {
                            if color.is_none() {
                                color = Some(g.clone());
                            }
                        },
                    }
                },
                BodyLine::Raw(_) => {},
            }
            i += 1;
        }
        assert(body.take(i as int) =~= body);
        let description = if self.leading_comments.len() > 0 {
            let last = &self.leading_comments[self.leading_comments.len() - 1];
            assert(char_vecs(self.leading_comments@).last() == last@);
            Some(string_of(&comment_description(last)))
        } else {
            None
        };
        HostView {
            patterns: strings_of(&self.patterns),
            hostname: opt_string_of(&hostname),
            user: opt_string_of(&user),
            port,
            identity_file: opt_string_of(&identity_file),
            proxy_jump: opt_string_of(&proxy_jump),
            forwards,
            group: opt_string_of(&group),
            icon: opt_string_of(&icon),
            color: opt_string_of(&color),
            description,
        }
    }
}


fn contains_pattern(patterns: &Vec<Vec<char>>, alias: &Vec<char>) -> (b: bool)
    ensures
        b == char_vecs(patterns@).contains(alias@),
{
    let mut i: usize = 0;
    while i < patterns.len()
        invariant
            i <= patterns.len(),
            forall|j: int| 0 <= j < i ==> char_vecs(patterns@)[j] != alias@,
        decreases patterns.len() - i,
    {
        if chars_eq(&patterns[i], alias) {
            assert(char_vecs(patterns@)[i as int] == alias@);
            return true;
        }
        i += 1;
    }
    false
}

fn item_is_host_for(item: &Item, alias: &Vec<char>) -> (b: bool)
    ensures
        b == is_host_for(item@, alias@),
{
    match item {
        Item::Host(h) => contains_pattern(&h.patterns, alias),
        _ => false,
    }
}

impl SshConfigDocument {
    /// Index of the first host block carrying the pattern `alias`.
    fn find_host(&self, alias: &Vec<char>) -> (r: Option<usize>)
        ensures
            match r {
                Some(i) => host_index(self@.items, alias@) == Some(i as int) && i < self.items.len()
                    && self.items@[i as int] is Host,
                None => host_index(self@.items, alias@) is None,
            },
    {
        let ghost iv = self@.items;
        let mut i: usize = 0;
        while i < self.items.len()
            invariant
                i <= self.items.len(),
                iv == self@.items,
                forall|j: int| 0 <= j < i ==> !is_host_for(#[trigger] iv[j], alias@),
            decreases self.items.len() - i,
        {
            assert(iv[i as int] == self.items@[i as int]@);
            if item_is_host_for(&self.items[i], alias) {
                proof {
                    lemma_host_index_at(iv, alias@, i as int);
                }
                return Some(i);
            }
            i += 1;
        }
        proof {
            lemma_host_index_at(iv, alias@, i as int);
        }
        None
    }

    /// Decode a single host block by alias (exact pattern match).
    pub fn host_view(&self, alias: &str) -> (r: Option<HostView>)
        ensures
            match (r, host_view_m(self@, alias@)) {
                (Some(v), Some(m)) => v@ == m,
                (None, None) => true,
                _ => false,
            },
    {
        let a = chars_of(alias);
        match self.find_host(&a) {
            Some(i) => match &self.items[i] {
                Item::Host(h) => {
                    assert(self@.items[i as int] == self.items@[i as int]@);
                    Some(h.to_view())
                },
                _ => None,
            },
            None => None,
        }
    }

    /// All host aliases (the first pattern of each host block), in order.
    pub fn host_aliases(&self) -> (r: Vec<String>)
        ensures
            string_views(r@) == host_aliases_m(self@.items),
    {
        let ghost iv = self@.items;
        let mut r: Vec<String> = Vec::new();
        let mut i: usize = 0;
        while i < self.items.len()
            invariant
                i <= self.items.len(),
                iv == self@.items,
                string_views(r@) == host_aliases_m(iv.take(i as int)),
            decreases self.items.len() - i,
        {
            proof {
                lemma_map_take_succ(self.items@, i as int, |it: Item| it@);
                lemma_filter_map_take_succ(iv, i as int, |it: ItemModel| alias_of_item(it));
            }
            match &self.items[i] {
                Item::Host(h) => {
                    if h.patterns.len() > 0 {
                        let s = string_of(&h.patterns[0]);
                        let ghost prev = r@;
                        r.push(s);
                        proof {
                            lemma_map_push(prev, s, |s: String| s@);
                        }
                    }
                },
                _ => {},
            }
            i += 1;
        }
        assert(iv.take(i as int) =~= iv);
        r
    }

    /// All declared groups, in document order.
    pub fn groups(&self) -> (r: Vec<Group>)
        ensures
            r@.map_values(|g: Group| g@) == groups_m(self@.items),
    {
        let ghost iv = self@.items;
        let mut r: Vec<Group> = Vec::new();
        let mut i: usize = 0;
        while i < self.items.len()
            invariant
                i <= self.items.len(),
                iv == self@.items,
                r@.map_values(|g: Group| g@) == groups_m(iv.take(i as int)),
            decreases self.items.len() - i,
        {
            proof {
                lemma_map_take_succ(self.items@, i as int, |it: Item| it@);
                lemma_filter_map_take_succ(iv, i as int, |it: ItemModel| group_of_item(it));
            }
            match &self.items[i] {
                Item::GroupMarker { uuid, name, .. } => {
                    let g = Group { uuid: string_of(uuid), name: string_of(name) };
                    let ghost prev = r@;
                    r.push(g);
                    proof {
                        lemma_map_push(prev, g, |g: Group| g@);
                    }
                },
                _ => {},
            }
            i += 1;
        }
        assert(iv.take(i as int) =~= iv);
        r
    }

    /// The top-level entries (group markers and hosts) in document order. The
    /// alias of each host is its first pattern; hosts with no pattern are
    /// skipped.
    pub fn outline(&self) -> (r: Vec<OutlineEntry>)
        ensures
            r@.map_values(|e: OutlineEntry| e@) == outline_m(self@.items),
    {
        let ghost iv = self@.items;
        let mut r: Vec<OutlineEntry> = Vec::new();
        let mut i: usize = 0;
        while i < self.items.len()
            invariant
                i <= self.items.len(),
                iv == self@.items,
                r@.map_values(|e: OutlineEntry| e@) == outline_m(iv.take(i as int)),
            decreases self.items.len() - i,
        {
            proof {
                lemma_map_take_succ(self.items@, i as int, |it: Item| it@);
                lemma_filter_map_take_succ(iv, i as int, |it: ItemModel| outline_of_item(it));
            }
            match &self.items[i] {
                Item::GroupMarker { uuid, name, .. } => {
                    let e = OutlineEntry::Group { uuid: string_of(uuid), name: string_of(name) };
                    let ghost prev = r@;
                    r.push(e);
                    proof {
                        lemma_map_push(prev, e, |e: OutlineEntry| e@);
                    }
                },
                Item::Host(h) => {
                    if h.patterns.len() > 0 {
                        let v = h.to_view();
                        let e = OutlineEntry::Host { alias: string_of(&h.patterns[0]), group: v.group };
                        let ghost prev = r@;
                        r.push(e);
                        proof {
                            lemma_map_push(prev, e, |e: OutlineEntry| e@);
                        }
                    }
                },
                _ => {},
            }
            i += 1;
        }
        assert(iv.take(i as int) =~= iv);
        r
    }
}


// ---------------------------------------------------------------------------
// Editing: specification
// ---------------------------------------------------------------------------
/// Index of the first body line satisfying `p`.
pub open spec fn first_where(s: Seq<BodyLineModel>, p: spec_fn(BodyLineModel) -> bool) -> Option<
    int,
>
    decreases s.len(),
{
    if s.len() == 0 {
        None
    } else if p(s[0]) {
        Some(0)
    } else {
        match first_where(s.drop_first(), p) {
            Some(k) => Some(k + 1),
            None => None,
        }
    }
}

pub proof fn lemma_first_where(s: Seq<BodyLineModel>, p: spec_fn(BodyLineModel) -> bool)
    ensures
        first_where(s, p) matches Some(k) ==> 0 <= k < s.len() && p(s[k]) && forall|j: int|
            0 <= j < k ==> !p(#[trigger] s[j]),
        first_where(s, p) is None ==> forall|j: int| 0 <= j < s.len() ==> !p(#[trigger] s[j]),
    decreases s.len(),
{
    if s.len() > 0 && !p(s[0]) {
        lemma_first_where(s.drop_first(), p);
        assert forall|j: int| 1 <= j < s.len() implies s[j] == s.drop_first()[j - 1] by {}
    }
}

pub proof fn lemma_first_where_at(s: Seq<BodyLineModel>, p: spec_fn(BodyLineModel) -> bool, k: int)
    requires
        0 <= k <= s.len(),
        forall|j: int| 0 <= j < k ==> !p(#[trigger] s[j]),
        k < s.len() ==> p(s[k]),
    ensures
        first_where(s, p) == (if k < s.len() {
            Some(k)
        } else {
            None::<int>
        }),
    decreases k,
{
    if k > 0 {
        assert forall|j: int| 0 <= j < k - 1 implies !p(#[trigger] s.drop_first()[j]) by {
            assert(s.drop_first()[j] == s[j + 1]);
        }
        if k < s.len() {
            assert(s.drop_first()[k - 1] == s[k]);
        }
        lemma_first_where_at(s.drop_first(), p, k - 1);
    }
}

/// The body lines not satisfying `p`, in order.
pub open spec fn drop_where(s: Seq<BodyLineModel>, p: spec_fn(BodyLineModel) -> bool) -> Seq<
    BodyLineModel,
> {
    s.filter_map(keep_unless(p))
}

pub open spec fn keep_unless(p: spec_fn(BodyLineModel) -> bool) -> spec_fn(BodyLineModel) -> Option<
    BodyLineModel,
> {
    |b: BodyLineModel| if p(b) {
        None
    } else {
        Some(b)
    }
}

/// Directive lines with keyword `kw` (any case).
pub open spec fn kw_pred(kw: Seq<char>) -> spec_fn(BodyLineModel) -> bool {
    |b: BodyLineModel| directive_value(b, kw) is Some
}

/// SCE lines of any kind.
pub open spec fn sce_pred() -> spec_fn(BodyLineModel) -> bool {
    |b: BodyLineModel| b is Sce
}

/// SCE lines of one kind.
pub open spec fn tag_pred(tag: SceKindTag) -> spec_fn(BodyLineModel) -> bool {
    |b: BodyLineModel| sce_value(b, tag) is Some
}

/// Forward directive lines.
pub open spec fn fwd_pred() -> spec_fn(BodyLineModel) -> bool {
    |b: BodyLineModel| forward_of(b) is Some
}

/// Where the editor inserts a new SSH directive: before the first SCE line,
/// so that metadata stays at the end of the block.
pub open spec fn insert_index(body: Seq<BodyLineModel>) -> int {
    match first_where(body, sce_pred()) {
        Some(i) => i,
        None => body.len() as int,
    }
}

pub open spec fn directive_line(indent: Seq<char>, kw: Seq<char>, v: Seq<char>) -> BodyLineModel {
    BodyLineModel::Directive { raw: indent + kw + seq![' '] + v, keyword: kw, value: v }
}

pub open spec fn keyword_at(b: BodyLineModel) -> Seq<char> {
    match b {
        BodyLineModel::Directive { keyword, .. } => keyword,
        _ => Seq::<char>::empty(),
    }
}

/// Set, replace or remove a single-valued directive: with a value, the first
/// occurrence is rewritten (keeping its keyword's spelling) and later ones
/// dropped, or a new line goes before the SCE metadata; without a value
/// every occurrence is dropped.
pub open spec fn set_scalar_m(
    body: Seq<BodyLineModel>,
    indent: Seq<char>,
    kw: Seq<char>,
    v: Option<Seq<char>>,
) -> Seq<BodyLineModel> {
    match v {
        None => drop_where(body, kw_pred(kw)),
        Some(val) => match first_where(body, kw_pred(kw)) {
            Some(p) => body.take(p) + seq![directive_line(indent, keyword_at(body[p]), val)]
                + drop_where(body.skip(p + 1), kw_pred(kw)),
            None => {
                let i = insert_index(body);
                body.take(i) + seq![directive_line(indent, kw, val)] + body.skip(i)
            },
        },
    }
}

pub open spec fn forward_line(indent: Seq<char>, f: (PortForwardKind, Seq<char>)) -> BodyLineModel {
    directive_line(indent, forward_keyword_of(f.0), f.1)
}

/// Replace every forward directive with `fs`, inserted before the SCE
/// metadata.
pub open spec fn set_forwards_m(
    body: Seq<BodyLineModel>,
    indent: Seq<char>,
    fs: Seq<(PortForwardKind, Seq<char>)>,
) -> Seq<BodyLineModel> {
    let b = drop_where(body, fwd_pred());
    let i = insert_index(b);
    b.take(i) + fs.map_values(|f: (PortForwardKind, Seq<char>)| forward_line(indent, f)) + b.skip(i)
}

pub open spec fn sce_keyword_of(tag: SceKindTag) -> Seq<char> {
    match tag {
        SceKindTag::Group => seq!['#', 'S', 'C', 'E', 'G', 'r', 'o', 'u', 'p'],
        SceKindTag::Icon => seq!['#', 'S', 'C', 'E', 'I', 'c', 'o', 'n'],
        SceKindTag::Tags => seq!['#', 'S', 'C', 'E', 'T', 'a', 'g', 's'],
    }
}

pub open spec fn sce_kind_with(tag: SceKindTag, v: Seq<char>) -> SceKindModel {
    match tag {
        SceKindTag::Group => SceKindModel::Group(v),
        SceKindTag::Icon => SceKindModel::Icon(v),
        SceKindTag::Tags => SceKindModel::Tags(v),
    }
}

pub open spec fn sce_line(indent: Seq<char>, tag: SceKindTag, v: Seq<char>) -> BodyLineModel {
    BodyLineModel::Sce { raw: indent + sce_keyword_of(tag) + seq![' '] + v, kind: sce_kind_with(tag, v) }
}

/// Set (rewrite the first line of that kind, or append one) or clear (drop
/// the first line of that kind) an SCE metadata line.
pub open spec fn set_sce_m(
    body: Seq<BodyLineModel>,
    indent: Seq<char>,
    tag: SceKindTag,
    v: Option<Seq<char>>,
) -> Seq<BodyLineModel> {
    let pos = first_where(body, tag_pred(tag));
    match v {
        None => match pos {
            Some(i) => body.remove(i),
            None => body,
        },
        Some(val) => match pos {
            Some(i) => body.update(i, sce_line(indent, tag, val)),
            None => body.push(sce_line(indent, tag, val)),
        },
    }
}

/// Replace (or add) the description comment, or drop the last leading
/// comment.
pub open spec fn set_description_m(leading: Seq<Seq<char>>, text: Option<Seq<char>>) -> Seq<
    Seq<char>,
> {
    match text {
        None => if leading.len() > 0 {
            leading.drop_last()
        } else {
            leading
        },
        Some(t) => {
            let line = seq!['#', ' '] + t;
            if leading.len() == 0 {
                seq![line]
            } else {
                leading.update(leading.len() - 1, line)
            }
        },
    }
}

/// Patterns joined with single spaces.
pub open spec fn join_space(ps: Seq<Seq<char>>) -> Seq<char>
    decreases ps.len(),
{
    if ps.len() == 0 {
        seq![]
    } else if ps.len() == 1 {
        ps[0]
    } else {
        join_space(ps.drop_last()) + seq![' '] + ps.last()
    }
}

pub open spec fn host_line(indent: Seq<char>, ps: Seq<Seq<char>>) -> Seq<char> {
    indent + seq!['H', 'o', 's', 't', ' '] + join_space(ps)
}

pub open spec fn renamed(ps: Seq<Seq<char>>, old: Seq<char>, new: Seq<char>) -> Seq<Seq<char>> {
    ps.map_values(|p: Seq<char>| if p == old {
        new
    } else {
        p
    })
}

pub open spec fn with_host(d: DocModel, i: int, h: HostModel) -> DocModel {
    DocModel { items: d.items.update(i, ItemModel::Host(h)), ..d }
}

pub open spec fn not_host_for(alias: Seq<char>) -> spec_fn(ItemModel) -> Option<ItemModel> {
    |it: ItemModel| if is_host_for(it, alias) {
        None
    } else {
        Some(it)
    }
}

pub open spec fn remove_host_m(d: DocModel, alias: Seq<char>) -> DocModel {
    DocModel { items: d.items.filter_map(not_host_for(alias)), ..d }
}

pub open spec fn rename_host_m(d: DocModel, old: Seq<char>, new: Seq<char>) -> DocModel {
    match host_index(d.items, old) {
        Some(i) => {
            let h = host_at(d.items, i);
            let ps = renamed(h.patterns, old, new);
            with_host(d, i, HostModel { patterns: ps, raw_host_line: host_line(h.host_indent, ps), ..h })
        },
        None => d,
    }
}

pub open spec fn set_host_sce_m(d: DocModel, alias: Seq<char>, tag: SceKindTag, v: Option<Seq<char>>) -> DocModel {
    match host_index(d.items, alias) {
        Some(i) => {
            let h = host_at(d.items, i);
            with_host(d, i, HostModel { body: set_sce_m(h.body, h.indent, tag, v), ..h })
        },
        None => d,
    }
}

pub open spec fn set_description_doc_m(d: DocModel, alias: Seq<char>, text: Option<Seq<char>>) -> DocModel {
    match host_index(d.items, alias) {
        Some(i) => {
            let h = host_at(d.items, i);
            with_host(d, i, HostModel { leading_comments: set_description_m(h.leading_comments, text), ..h })
        },
        None => d,
    }
}

/// Whether appending a block needs a separating blank line first.
pub open spec fn needs_blank(items: Seq<ItemModel>) -> bool {
    items.len() > 0 && !(items.last() is Blank)
}

pub open spec fn with_separator(items: Seq<ItemModel>) -> Seq<ItemModel> {
    if needs_blank(items) {
        items.push(ItemModel::Blank(seq![]))
    } else {
        items
    }
}

pub open spec fn new_host(alias: Seq<char>, indent: Seq<char>) -> HostModel {
    HostModel {
        leading_comments: seq![],
        raw_host_line: seq!['H', 'o', 's', 't', ' '] + alias,
        host_indent: seq![],
        patterns: seq![alias],
        indent,
        body: seq![],
    }
}

pub open spec fn port_text(p: Option<u16>) -> Option<Seq<char>> {
    match p {
        Some(n) => Some(crate::text::dec_str(n as nat)),
        None => None,
    }
}

/// The managed directives of `f` applied to a host body.
pub open spec fn apply_core_m(h: HostModel, f: CoreFieldsModel) -> HostModel {
    let b1 = set_scalar_m(h.body, h.indent, kw_hostname(), f.hostname);
    let b2 = set_scalar_m(b1, h.indent, kw_user(), f.user);
    let b3 = set_scalar_m(b2, h.indent, kw_port(), port_text(f.port));
    let b4 = set_scalar_m(b3, h.indent, kw_identity_file(), f.identity_file);
    let b5 = set_scalar_m(b4, h.indent, kw_proxy_jump(), f.proxy_jump);
    HostModel { body: set_forwards_m(b5, h.indent, f.forwards), ..h }
}

/// The document with a (new, appended) host for `alias` if none existed.
pub open spec fn ensure_host_m(d: DocModel, alias: Seq<char>) -> DocModel {
    match host_index(d.items, alias) {
        Some(_) => d,
        None => DocModel {
            items: with_separator(d.items).push(ItemModel::Host(new_host(alias, d.default_indent))),
            ..d
        },
    }
}

pub open spec fn upsert_host_m(d: DocModel, alias: Seq<char>, f: CoreFieldsModel) -> DocModel {
    let d1 = ensure_host_m(d, alias);
    match host_index(d1.items, alias) {
        Some(i) => with_host(d1, i, apply_core_m(host_at(d1.items, i), f)),
        None => d1,
    }
}

pub open spec fn create_group_m(d: DocModel, uuid: Seq<char>, name: Seq<char>) -> DocModel {
    DocModel {
        items: with_separator(d.items).push(
            ItemModel::GroupMarker { uuid, name, raw: marker_line(uuid, name) },
        ).push(
            ItemModel::Blank(seq![]),
        ),
        ..d
    }
}

pub open spec fn is_marker_for(it: ItemModel, uuid: Seq<char>) -> bool {
    match it {
        ItemModel::GroupMarker { uuid: u, .. } => u == uuid,
        _ => false,
    }
}

/// Index of the first group marker with this uuid.
pub open spec fn marker_index(items: Seq<ItemModel>, uuid: Seq<char>) -> Option<int>
    decreases items.len(),
{
    if items.len() == 0 {
        None
    } else if is_marker_for(items[0], uuid) {
        Some(0)
    } else {
        match marker_index(items.drop_first(), uuid) {
            Some(k) => Some(k + 1),
            None => None,
        }
    }
}

pub open spec fn rename_group_m(d: DocModel, uuid: Seq<char>, name: Seq<char>) -> DocModel {
    match marker_index(d.items, uuid) {
        Some(i) => DocModel {
            items: d.items.update(
                i,
                ItemModel::GroupMarker { uuid, name, raw: marker_line(uuid, name) },
            ),
            ..d
        },
        None => d,
    }
}

/// SCE membership lines naming the group `uuid`.
pub open spec fn member_pred(uuid: Seq<char>) -> spec_fn(BodyLineModel) -> bool {
    |b: BodyLineModel| sce_value(b, SceKindTag::Group) == Some(uuid)
}

pub open spec fn without_group(it: ItemModel, uuid: Seq<char>) -> Option<ItemModel> {
    match it {
        ItemModel::GroupMarker { uuid: u, .. } => if u == uuid {
            None
        } else {
            Some(it)
        },
        ItemModel::Host(h) => Some(
            ItemModel::Host(HostModel { body: drop_where(h.body, member_pred(uuid)), ..h }),
        ),
        _ => Some(it),
    }
}

pub open spec fn group_remover(uuid: Seq<char>) -> spec_fn(ItemModel) -> Option<ItemModel> {
    |it: ItemModel| without_group(it, uuid)
}

pub open spec fn delete_group_m(d: DocModel, uuid: Seq<char>) -> DocModel {
    DocModel { items: d.items.filter_map(group_remover(uuid)), ..d }
}


pub open spec fn with_body(h: HostModel, body: Seq<BodyLineModel>) -> HostModel {
    HostModel { body, ..h }
}

pub proof fn lemma_drop_where_skip(s: Seq<BodyLineModel>, p: spec_fn(BodyLineModel) -> bool, i: int)
    requires
        0 <= i < s.len(),
    ensures
        drop_where(s.skip(i), p) == (if p(s[i]) {
            Seq::<BodyLineModel>::empty()
        } else {
            seq![s[i]]
        }) + drop_where(s.skip(i + 1), p),
{
    assert(s.skip(i) =~= seq![s[i]] + s.skip(i + 1));
    lemma_filter_map_add(seq![s[i]], s.skip(i + 1), keep_unless(p));
    lemma_filter_map_single(s[i], keep_unless(p));
}

pub proof fn lemma_drop_where_all(s: Seq<BodyLineModel>, p: spec_fn(BodyLineModel) -> bool)
    ensures
        s.take(0) + drop_where(s.skip(0), p) == drop_where(s, p),
{
    assert(s.skip(0) =~= s);
    assert(s.take(0) + drop_where(s, p) =~= drop_where(s, p));
}

// ---------------------------------------------------------------------------
// Editing: implementation
// ---------------------------------------------------------------------------
/// Which body lines a search or a bulk removal refers to.
enum LineSelector {
    /// Directives with this keyword (any case).
    Keyword(Vec<char>),
    /// Forward directives.
    Forward,
    /// SCE lines of any kind.
    AnySce,
    /// SCE lines of one kind.
    Tag(SceKindTag),
    /// `#SCEGroup` lines naming this group.
    Member(Vec<char>),
}

spec fn selector_pred(sel: LineSelector) -> spec_fn(BodyLineModel) -> bool {
    match sel {
        LineSelector::Keyword(kw) => kw_pred(kw@),
        LineSelector::Forward => fwd_pred(),
        LineSelector::AnySce => sce_pred(),
        LineSelector::Tag(t) => tag_pred(t),
        LineSelector::Member(u) => member_pred(u@),
    }
}

fn selects(sel: &LineSelector, b: &BodyLine) -> (r: bool)
    ensures
        r == selector_pred(*sel)(b@),
{
    match sel {
        LineSelector::Keyword(kw) => match b {
            BodyLine::Directive { keyword, .. } => eq_ignore_case(keyword, kw),
            _ => false,
        },
        LineSelector::Forward => match b {
            BodyLine::Directive { keyword, .. } => is_forward_keyword(keyword),
            _ => false,
        },
        LineSelector::AnySce => match b {
            BodyLine::Sce { .. } => true,
            _ => false,
        },
        LineSelector::Tag(t) => match b {
            BodyLine::Sce { kind, .. } => match (t, kind) {
                (SceKindTag::Group, SceKind::Group(_)) => true,
                (SceKindTag::Icon, SceKind::Icon(_)) => true,
                (SceKindTag::Tags, SceKind::Tags(_)) => true,
                _ => false,
            },
            _ => false,
        },
        LineSelector::Member(u) => match b {
            BodyLine::Sce { kind: SceKind::Group(g), .. } => chars_eq(g, u),
            _ => false,
        },
    }
}

/// `<indent><keyword> <value>` as a directive line.
fn make_directive(indent: &Vec<char>, kw: &Vec<char>, v: &Vec<char>) -> (r: BodyLine)
    ensures
        r@ == directive_line(indent@, kw@, v@),
{
    let mut raw = indent.clone();
    extend(&mut raw, kw);
    raw.push(' ');
    extend(&mut raw, v);
    assert(raw@ =~= indent@ + kw@ + seq![' '] + v@);
    BodyLine::Directive { raw, keyword: kw.clone(), value: v.clone() }
}

impl HostBlock {
    /// Index of the first body line `sel` selects.
    fn first_selected(&self, sel: &LineSelector) -> (r: Option<usize>)
        ensures
            r matches Some(i) ==> i < self.body.len() && first_where(self@.body, selector_pred(*sel))
                == Some(i as int),
            r is None ==> first_where(self@.body, selector_pred(*sel)) is None,
    {
        let ghost s = self@.body;
        let ghost p = selector_pred(*sel);
        let mut i: usize = 0;
        while i < self.body.len()
            invariant
                i <= self.body.len(),
                s == self@.body,
                p == selector_pred(*sel),
                forall|j: int| 0 <= j < i ==> !p(#[trigger] s[j]),
            decreases self.body.len() - i,
        {
            assert(s[i as int] == self.body@[i as int]@);
            if selects(sel, &self.body[i]) {
                proof {
                    lemma_first_where_at(s, p, i as int);
                }
                return Some(i);
            }
            i += 1;
        }
        proof {
            lemma_first_where_at(s, p, i as int);
        }
        None
    }

    /// Where a new SSH directive goes: before the first SCE line.
    fn ssh_insert_index(&self) -> (r: usize)
        ensures
            r as int == insert_index(self@.body),
            r <= self.body.len(),
    {
        match self.first_selected(&LineSelector::AnySce) {
            Some(i) => i,
            None => self.body.len(),
        }
    }

    /// Drop the body lines at or after `from` that `sel` selects.
    fn drop_lines_from(&mut self, from: usize, sel: &LineSelector)
        requires
            from <= old(self).body.len(),
        ensures
            final(self)@ == with_body(
                old(self)@,
                old(self)@.body.take(from as int) + drop_where(
                    old(self)@.body.skip(from as int),
                    selector_pred(*sel),
                ),
            ),
    {
        let ghost orig = self@;
        let ghost s = self@.body;
        let ghost p = selector_pred(*sel);
        let mut i: usize = self.body.len();
        proof {
            assert(s.skip(i as int) =~= Seq::<BodyLineModel>::empty());
            lemma_filter_map_empty(s.skip(i as int), keep_unless(p));
            assert(s.take(i as int) + drop_where(s.skip(i as int), p) =~= s);
        }
        while i > from
            invariant
                from <= i <= s.len(),
                s == orig.body,
                p == selector_pred(*sel),
                self@ == with_body(orig, s.take(i as int) + drop_where(s.skip(i as int), p)),
            decreases i,
        {
            i -= 1;
            proof {
                lemma_drop_where_skip(s, p, i as int);
                let bv = body_views(self.body@);
                assert(bv == self@.body);
                assert(bv.len() == self.body@.len());
                assert(bv == s.take(i + 1) + drop_where(s.skip(i + 1), p));
                assert(bv[i as int] == s[i as int]);
                assert(self.body@[i as int]@ == s[i as int]);
            }
            if selects(sel, &self.body[i]) {
                let ghost before = self.body@;
                self.body.remove(i);
                proof {
                    let bv0 = body_views(before);
                    assert(bv0 == s.take(i + 1) + drop_where(s.skip(i + 1), p));
                    assert(body_views(self.body@) =~= bv0.remove(i as int));
                    assert(bv0.remove(i as int) =~= s.take(i as int) + drop_where(
                        s.skip(i + 1),
                        p,
                    ));
                }
            } else {
                proof {
                    assert(s.take(i + 1) =~= s.take(i as int) + seq![s[i as int]]);
                    assert(body_views(self.body@) =~= s.take(i as int) + drop_where(
                        s.skip(i as int),
                        p,
                    ));
                }
            }
        }
    }

    /// Set, replace or remove a single-valued directive.
    fn set_scalar(&mut self, kw: &Vec<char>, value: &Option<Vec<char>>)
        ensures
            final(self)@ == with_body(
                old(self)@,
                set_scalar_m(old(self)@.body, old(self)@.indent, kw@, opt_chars_of(*value)),
            ),
    {
        let ghost s = self@.body;
        let sel = LineSelector::Keyword(kw.clone());
        assert(selector_pred(sel) == kw_pred(kw@));
        match value {
            None => {
                self.drop_lines_from(0, &sel);
                proof {
                    lemma_drop_where_all(s, kw_pred(kw@));
                }
            },
            Some(v) => {
                match self.first_selected(&sel) {
                    Some(p) => {
                        proof {
                            lemma_first_where(s, kw_pred(kw@));
                        }
                        self.drop_lines_from(p + 1, &sel);
                        proof {
                            let bv = body_views(self.body@);
                            assert(bv == self@.body);
                            assert(bv.len() == self.body@.len());
                            assert(bv == s.take(p + 1) + drop_where(s.skip(p + 1), kw_pred(kw@)));
                            assert(bv[p as int] == s[p as int]);
                            assert(self.body@[p as int]@ == s[p as int]);
                        }
                        let ghost mid = self.body@;
                        let old_line = self.body.remove(p);
                        let keyword = match old_line {
                            BodyLine::Directive { keyword, .. } => keyword,
                            _ => kw.clone(),
                        };
                        let line = make_directive(&self.indent, &keyword, v);
                        let ghost line_v = line@;
                        self.body.insert(p, line);
                        proof {
                            let bv0 = body_views(mid);
                            assert(bv0 == s.take(p + 1) + drop_where(s.skip(p + 1), kw_pred(kw@)));
                            assert(line_v == directive_line(self@.indent, keyword_at(s[p as int]), v@));
                            assert(body_views(self.body@) =~= bv0.remove(p as int).insert(p as int, line_v));
                            assert(body_views(self.body@) =~= s.take(p as int) + seq![
                                directive_line(self@.indent, keyword_at(s[p as int]), v@),
                            ] + drop_where(s.skip(p + 1), kw_pred(kw@)));
                        }
                    },
                    None => {
                        let i = self.ssh_insert_index();
                        let line = make_directive(&self.indent, kw, v);
                        let ghost before = self.body@;
                        self.body.insert(i, line);
                        proof {
                            assert(body_views(self.body@) =~= s.take(i as int) + seq![
                                directive_line(self@.indent, kw@, v@),
                            ] + s.skip(i as int));
                        }
                    },
                }
            },
        }
    }
}


pub open spec fn with_leading(h: HostModel, l: Seq<Seq<char>>) -> HostModel {
    HostModel { leading_comments: l, ..h }
}

/// `<indent>#SCE<Kind> <value>` as an SCE line.
fn make_sce(indent: &Vec<char>, tag: SceKindTag, v: &Vec<char>) -> (r: BodyLine)
    ensures
        r@ == sce_line(indent@, tag, v@),
{
    let mut raw = indent.clone();
    raw.push('#');
    let (kw, kind) = match tag {
        SceKindTag::Group => (sce_keyword(0), SceKind::Group(v.clone())),
        SceKindTag::Icon => (sce_keyword(1), SceKind::Icon(v.clone())),
        SceKindTag::Tags => (sce_keyword(2), SceKind::Tags(v.clone())),
    };
    extend(&mut raw, &kw);
    raw.push(' ');
    extend(&mut raw, v);
    assert(raw@ =~= indent@ + sce_keyword_of(tag) + seq![' '] + v@);
    BodyLine::Sce { raw, kind }
}

/// The patterns joined with single spaces.
fn join_patterns(ps: &Vec<Vec<char>>) -> (r: Vec<char>)
    ensures
        r@ == join_space(char_vecs(ps@)),
{
    let ghost cs = char_vecs(ps@);
    let mut r: Vec<char> = Vec::new();
    let mut k: usize = 0;
    while k < ps.len()
        invariant
            k <= ps.len(),
            cs == char_vecs(ps@),
            r@ == join_space(cs.take(k as int)),
        decreases ps.len() - k,
    {
        let ghost prev = r@;
        if k > 0 {
            r.push(' ');
        }
        extend(&mut r, &ps[k]);
        proof {
            assert(cs.take(k + 1).drop_last() =~= cs.take(k as int));
            assert(cs.take(k + 1).last() == ps@[k as int]@);
            if k == 0 {
                assert(cs.take(1)[0] == ps@[0]@);
                assert(r@ =~= ps@[0]@);
            } else {
                assert(r@ =~= prev + seq![' '] + ps@[k as int]@);
            }
        }
        k += 1;
    }
    assert(cs.take(k as int) =~= cs);
    r
}

impl HostBlock {
    /// Replace every forward directive with `forwards`, inserted before the
    /// SCE metadata.
    fn set_forwards(&mut self, forwards: &Vec<ForwardEntry>)
        ensures
            final(self)@ == with_body(
                old(self)@,
                set_forwards_m(old(self)@.body, old(self)@.indent, forward_views(forwards@)),
            ),
    {
        let ghost orig = self@;
        let ghost fs = forward_views(forwards@);
        self.drop_lines_from(0, &LineSelector::Forward);
        proof {
            lemma_drop_where_all(orig.body, fwd_pred());
        }
        let ghost b = self@.body;
        let idx = self.ssh_insert_index();
        let ghost ind = self@.indent;
        let ghost lines = fs.map_values(|f: (PortForwardKind, Seq<char>)| forward_line(ind, f));
        let mut k: usize = 0;
        proof {
            assert(b =~= b.take(idx as int) + lines.take(0) + b.skip(idx as int));
        }
        while k < forwards.len()
            invariant
                k <= forwards.len(),
                idx <= b.len(),
                fs == forward_views(forwards@),
                ind == orig.indent,
                lines == fs.map_values(|f: (PortForwardKind, Seq<char>)| forward_line(ind, f)),
                self@ == with_body(orig, b.take(idx as int) + lines.take(k as int) + b.skip(idx as int)),
            decreases forwards.len() - k,
        {
            let f = &forwards[k];
            let kw = forward_keyword(f.kind);
            let spec = chars_of(f.spec.as_str());
            let line = make_directive(&self.indent, &kw, &spec);
            let ghost before = self.body@;
            proof {
                assert(body_views(before).len() == before.len());
                assert(lines.len() == forwards.len());
                assert(body_views(before) == self@.body);
                assert(body_views(before).len() == b.len() + k);
                assert(fs[k as int] == f@);
                assert(lines[k as int] == line@);
            }
            let ghost line_v = line@;
            let n = self.body.len();
            assert(idx + k <= n);
            self.body.insert(idx + k, line);
            proof {
                assert(body_views(self.body@) =~= body_views(before).insert((idx + k) as int, line_v));
                assert(lines.take(k + 1) =~= lines.take(k as int).push(line@));
                assert(body_views(self.body@) =~= b.take(idx as int) + lines.take(k + 1) + b.skip(
                    idx as int,
                ));
            }
            k += 1;
        }
        assert(lines.take(k as int) =~= lines);
    }

    /// Set (rewrite the first line of that kind, or append one) or clear
    /// (drop the first line of that kind) an SCE metadata line.
    fn set_sce(&mut self, tag: SceKindTag, value: &Option<Vec<char>>)
        ensures
            final(self)@ == with_body(
                old(self)@,
                set_sce_m(old(self)@.body, old(self)@.indent, tag, opt_chars_of(*value)),
            ),
    {
        let ghost s = self@.body;
        let pos = self.first_selected(&LineSelector::Tag(tag));
        match value {
            None => match pos {
                Some(i) => {
                    self.body.remove(i);
                    assert(body_views(self.body@) =~= s.remove(i as int));
                },
                None => {},
            },
            Some(v) => {
                let line = make_sce(&self.indent, tag, v);
                let ghost line_v = line@;
                match pos {
                    Some(i) => {
                        self.body.remove(i);
                        self.body.insert(i, line);
                        assert(body_views(self.body@) =~= s.update(i as int, line_v));
                    },
                    None => {
                        self.body.push(line);
                        assert(body_views(self.body@) =~= s.push(line_v));
                    },
                }
            },
        }
    }

    /// Set or clear the description (the last comment line above `Host`).
    fn set_description(&mut self, text: &Option<Vec<char>>)
        ensures
            final(self)@ == with_leading(
                old(self)@,
                set_description_m(old(self)@.leading_comments, opt_chars_of(*text)),
            ),
    {
        let ghost l = self@.leading_comments;
        match text {
            None => {
                if self.leading_comments.len() > 0 {
                    self.leading_comments.pop();
                    assert(char_vecs(self.leading_comments@) =~= l.drop_last());
                }
            },
            Some(t) => {
                let mut line = vec!['#', ' '];
                extend(&mut line, t);
                let ghost line_v = line@;
                assert(line_v =~= seq!['#', ' '] + t@);
                if self.leading_comments.len() == 0 {
                    self.leading_comments.push(line);
                    assert(char_vecs(self.leading_comments@) =~= seq![line_v]);
                } else {
                    self.leading_comments.pop();
                    self.leading_comments.push(line);
                    assert(char_vecs(self.leading_comments@) =~= l.update(l.len() - 1, line_v));
                }
            },
        }
    }

    /// Rewrite the `Host` line from the indentation and patterns.
    fn rebuild_host_line(&mut self)
        ensures
            final(self)@ == (HostModel {
                raw_host_line: host_line(old(self)@.host_indent, old(self)@.patterns),
                ..old(self)@
            }),
    {
        let mut line = self.host_indent.clone();
        let host_kw = vec!['H', 'o', 's', 't', ' '];
        extend(&mut line, &host_kw);
        let joined = join_patterns(&self.patterns);
        extend(&mut line, &joined);
        assert(line@ =~= self@.host_indent + seq!['H', 'o', 's', 't', ' '] + join_space(
            self@.patterns,
        ));
        self.raw_host_line = line;
    }
}


pub open spec fn opt_slice(o: Option<&str>) -> Option<Seq<char>> {
    match o {
        Some(s) => Some(s@),
        None => None,
    }
}

fn opt_chars_from(o: Option<&str>) -> (r: Option<Vec<char>>)
    ensures
        opt_chars_of(r) == opt_slice(o),
{
    match o {
        Some(s) => Some(chars_of(s)),
        None => None,
    }
}

fn opt_chars_of_string(o: &Option<String>) -> (r: Option<Vec<char>>)
    ensures
        opt_chars_of(r) == opt_str(*o),
{
    match o {
        Some(s) => Some(chars_of(s.as_str())),
        None => None,
    }
}

pub proof fn lemma_filter_map_skip<A, B>(s: Seq<A>, i: int, f: spec_fn(A) -> Option<B>)
    requires
        0 <= i < s.len(),
    ensures
        s.skip(i).filter_map(f) == (match f(s[i]) {
            Some(x) => seq![x],
            None => Seq::<B>::empty(),
        }) + s.skip(i + 1).filter_map(f),
{
    assert(s.skip(i) =~= seq![s[i]] + s.skip(i + 1));
    lemma_filter_map_add(seq![s[i]], s.skip(i + 1), f);
    lemma_filter_map_single(s[i], f);
}

pub proof fn lemma_marker_index_at(items: Seq<ItemModel>, uuid: Seq<char>, k: int)
    requires
        0 <= k <= items.len(),
        forall|j: int| 0 <= j < k ==> !is_marker_for(#[trigger] items[j], uuid),
        k < items.len() ==> is_marker_for(items[k], uuid),
    ensures
        marker_index(items, uuid) == (if k < items.len() {
            Some(k)
        } else {
            None::<int>
        }),
    decreases k,
{
    if k > 0 {
        assert forall|j: int| 0 <= j < k - 1 implies !is_marker_for(
            #[trigger] items.drop_first()[j],
            uuid,
        ) by {
            assert(items.drop_first()[j] == items[j + 1]);
        }
        if k < items.len() {
            assert(items.drop_first()[k - 1] == items[k]);
        }
        lemma_marker_index_at(items.drop_first(), uuid, k - 1);
    }
}

/// The patterns with every occurrence of `old` replaced by `new`.
fn rename_patterns(ps: &Vec<Vec<char>>, old: &Vec<char>, new: &Vec<char>) -> (r: Vec<Vec<char>>)
    ensures
        char_vecs(r@) == renamed(char_vecs(ps@), old@, new@),
{
    let ghost cs = char_vecs(ps@);
    let mut r: Vec<Vec<char>> = Vec::new();
    let mut k: usize = 0;
    while k < ps.len()
        invariant
            k <= ps.len(),
            cs == char_vecs(ps@),
            char_vecs(r@) == renamed(cs.take(k as int), old@, new@),
        decreases ps.len() - k,
    {
        let p = if chars_eq(&ps[k], old) {
            new.clone()
        } else {
            ps[k].clone()
        };
        let ghost prev = r@;
        r.push(p);
        proof {
            lemma_map_push(prev, p, |w: Vec<char>| w@);
            assert(cs.take(k + 1) =~= cs.take(k as int).push(cs[k as int]));
            lemma_map_push(cs.take(k as int), cs[k as int], |q: Seq<char>| if q == old@ {
                new@
            } else {
                q
            });
        }
        k += 1;
    }
    assert(cs.take(k as int) =~= cs);
    r
}

impl SshConfigDocument {
    /// The host block at `i`, moved out of the document; a blank line stands
    /// in its place until it is put back.
    fn take_host(&mut self, i: usize) -> (h: HostBlock)
        requires
            i < old(self).items.len(),
            old(self)@.items[i as int] is Host,
        ensures
            h@ == host_at(old(self)@.items, i as int),
            final(self)@ == (DocModel {
                items: old(self)@.items.update(i as int, ItemModel::Blank(seq![])),
                ..old(self)@
            }),
            final(self).items.len() == old(self).items.len(),
    {
        let ghost before = self.items@;
        let item = self.items.remove(i);
        self.items.insert(i, Item::Blank(Vec::new()));
        assert(item_views(self.items@) =~= item_views(before).update(i as int, ItemModel::Blank(seq![])));
        assert(item@ == item_views(before)[i as int]);
        match item {
            Item::Host(h) => h,
            _ => {
                proof {
                    assert(false);
                }
                HostBlock {
                    leading_comments: Vec::new(),
                    raw_host_line: Vec::new(),
                    host_indent: Vec::new(),
                    patterns: Vec::new(),
                    indent: Vec::new(),
                    body: Vec::new(),
                }
            },
        }
    }

    /// Put the host block `h` at position `i`.
    fn put_host(&mut self, i: usize, h: HostBlock)
        requires
            i < old(self).items.len(),
        ensures
            final(self)@ == with_host(old(self)@, i as int, h@),
            final(self).items.len() == old(self).items.len(),
    {
        let ghost before = self.items@;
        let ghost hv = h@;
        self.items.remove(i);
        self.items.insert(i, Item::Host(h));
        assert(item_views(self.items@) =~= item_views(before).update(i as int, ItemModel::Host(hv)));
    }

    fn set_host_sce(&mut self, alias: &str, tag: SceKindTag, value: Option<&str>) -> (r: bool)
        ensures
            r == host_index(old(self)@.items, alias@) is Some,
            final(self)@ == set_host_sce_m(old(self)@, alias@, tag, opt_slice(value)),
    {
        let a = chars_of(alias);
        match self.find_host(&a) {
            Some(i) => {
                let ghost d = self@;
                let mut h = self.take_host(i);
                let v = opt_chars_from(value);
                h.set_sce(tag, &v);
                self.put_host(i, h);
                assert(self@.items =~= set_host_sce_m(d, alias@, tag, opt_slice(value)).items);
                true
            },
            None => false,
        }
    }

    /// Set or clear a host's group membership (`#SCEGroup`). Returns `false`
    /// if the host is not found.
    pub fn set_group(&mut self, alias: &str, uuid: Option<&str>) -> (r: bool)
        ensures
            r == host_index(old(self)@.items, alias@) is Some,
            final(self)@ == set_host_sce_m(old(self)@, alias@, SceKindTag::Group, opt_slice(uuid)),
    {
        self.set_host_sce(alias, SceKindTag::Group, uuid)
    }

    /// Set or clear a host's icon (`#SCEIcon`). Returns `false` if not found.
    pub fn set_icon(&mut self, alias: &str, icon: Option<&str>) -> (r: bool)
        ensures
            r == host_index(old(self)@.items, alias@) is Some,
            final(self)@ == set_host_sce_m(old(self)@, alias@, SceKindTag::Icon, opt_slice(icon)),
    {
        self.set_host_sce(alias, SceKindTag::Icon, icon)
    }

    /// Set or clear a host's color tag (`#SCETags`). Returns `false` if not
    /// found.
    pub fn set_color(&mut self, alias: &str, color: Option<&str>) -> (r: bool)
        ensures
            r == host_index(old(self)@.items, alias@) is Some,
            final(self)@ == set_host_sce_m(old(self)@, alias@, SceKindTag::Tags, opt_slice(color)),
    {
        self.set_host_sce(alias, SceKindTag::Tags, color)
    }

    /// Set or clear a host's description (the comment line directly above
    /// `Host`). Returns `false` if the host is not found.
    pub fn set_description(&mut self, alias: &str, text: Option<&str>) -> (r: bool)
        ensures
            r == host_index(old(self)@.items, alias@) is Some,
            final(self)@ == set_description_doc_m(old(self)@, alias@, opt_slice(text)),
    {
        let a = chars_of(alias);
        match self.find_host(&a) {
            Some(i) => {
                let ghost d = self@;
                let mut h = self.take_host(i);
                let t = opt_chars_from(text);
                h.set_description(&t);
                self.put_host(i, h);
                assert(self@.items =~= set_description_doc_m(d, alias@, opt_slice(text)).items);
                true
            },
            None => false,
        }
    }

    /// Rename a host alias (every pattern token equal to `old` becomes
    /// `new`, and the `Host` line is rewritten). Returns `false` if not found.
    pub fn rename_host(&mut self, from: &str, to: &str) -> (r: bool)
        ensures
            r == host_index(old(self)@.items, from@) is Some,
            final(self)@ == rename_host_m(old(self)@, from@, to@),
    {
        let o = chars_of(from);
        let n = chars_of(to);
        match self.find_host(&o) {
            Some(i) => {
                let ghost d = self@;
                let mut h = self.take_host(i);
                h.patterns = rename_patterns(&h.patterns, &o, &n);
                h.rebuild_host_line();
                self.put_host(i, h);
                assert(self@.items =~= rename_host_m(d, from@, to@).items);
                true
            },
            None => false,
        }
    }
}


pub proof fn lemma_marker_index(items: Seq<ItemModel>, uuid: Seq<char>)
    ensures
        marker_index(items, uuid) matches Some(k) ==> 0 <= k < items.len() && is_marker_for(
            items[k],
            uuid,
        ) && forall|j: int| 0 <= j < k ==> !is_marker_for(#[trigger] items[j], uuid),
        marker_index(items, uuid) is None ==> forall|j: int|
            0 <= j < items.len() ==> !is_marker_for(#[trigger] items[j], uuid),
    decreases items.len(),
{
    if items.len() > 0 && !is_marker_for(items[0], uuid) {
        lemma_marker_index(items.drop_first(), uuid);
        assert forall|j: int| 1 <= j < items.len() implies items[j] == items.drop_first()[j
            - 1] by {}
    }
}

fn item_is_marker_for(item: &Item, uuid: &Vec<char>) -> (b: bool)
    ensures
        b == is_marker_for(item@, uuid@),
{
    match item {
        Item::GroupMarker { uuid: u, .. } => chars_eq(u, uuid),
        _ => false,
    }
}

/// A UUID in hyphenated form: 36 characters, `-` at positions 8, 13, 18 and
/// 23, and a hex digit (of the given case) everywhere else.
pub open spec fn is_hyphen_pos(i: int) -> bool {
    i == 8 || i == 13 || i == 18 || i == 23
}

pub open spec fn is_lower_hex(c: char) -> bool {
    ('0' <= c && c <= '9') || ('a' <= c && c <= 'f')
}

pub open spec fn is_upper_hex(c: char) -> bool {
    ('0' <= c && c <= '9') || ('A' <= c && c <= 'F')
}

pub open spec fn hyphenated(s: Seq<char>, upper_case: bool) -> bool {
    &&& s.len() == 36
    &&& forall|i: int|
        0 <= i < 36 ==> if is_hyphen_pos(i) {
            s[i] == '-'
        } else if upper_case {
            is_upper_hex(#[trigger] s[i])
        } else {
            is_lower_hex(s[i])
        }
}

/// The version digit (`4`) and the RFC 4122 variant digit (`8`, `9`, `a` or
/// `b`, in the given case) of a hyphenated random UUID.
pub open spec fn version4_digits(s: Seq<char>, upper_case: bool) -> bool {
    &&& s[14] == '4'
    &&& if upper_case {
        s[19] == '8' || s[19] == '9' || s[19] == 'A' || s[19] == 'B'
    } else {
        s[19] == '8' || s[19] == '9' || s[19] == 'a' || s[19] == 'b'
    }
}

/// `Uuid::new_v4().to_string()`: a random version-4 UUID, formatted by the
/// `uuid` crate's `Display` (hyphenated, lower-case hex). `new_v4` masks the
/// random bits so that the version digit is `4` and the variant digit is one
/// of `8`, `9`, `a`, `b`; only this format is stated: the value is random.
#[verifier::external_body]
fn random_uuid() -> (r: String)
    ensures
        hyphenated(r@, false),
        version4_digits(r@, false),
{
    uuid::Uuid::new_v4().to_string()
}

impl SshConfigDocument {
    /// Remove every host block carrying the pattern `alias`. Returns `false`
    /// if there was none.
    pub fn remove_host(&mut self, alias: &str) -> (r: bool)
        ensures
            r == host_index(old(self)@.items, alias@) is Some,
            final(self)@ == remove_host_m(old(self)@, alias@),
    {
        let a = chars_of(alias);
        let ghost d = self@;
        let ghost s = d.items;
        let ghost f = not_host_for(alias@);
        let mut removed = false;
        let mut i: usize = self.items.len();
        proof {
            assert(s.skip(i as int) =~= Seq::<ItemModel>::empty());
            assert(s.skip(i as int).filter_map(f) =~= Seq::<ItemModel>::empty());
            assert(s.take(i as int) + s.skip(i as int).filter_map(f) =~= s);
        }
        while i > 0
            invariant
                i <= s.len(),
                a@ == alias@,
                f == not_host_for(alias@),
                self@ == (DocModel { items: s.take(i as int) + s.skip(i as int).filter_map(f), ..d }),
                removed == exists|j: int| i <= j < s.len() && #[trigger] is_host_for(s[j], alias@),
            decreases i,
        {
            i -= 1;
            proof {
                lemma_filter_map_skip(s, i as int, f);
                let iv = item_views(self.items@);
                assert(iv.len() == self.items@.len());
                assert(iv == s.take(i + 1) + s.skip(i + 1).filter_map(f));
                assert(iv[i as int] == s[i as int]);
                assert(self.items@[i as int]@ == s[i as int]);
            }
            let ghost before = self.items@;
            if item_is_host_for(&self.items[i], &a) {
                self.items.remove(i);
                removed = true;
                proof {
                    assert(item_views(self.items@) =~= item_views(before).remove(i as int));
                    assert(item_views(self.items@) =~= s.take(i as int) + s.skip(i as int).filter_map(f));
                }
            } else {
                proof {
                    assert(s.take(i + 1) =~= s.take(i as int) + seq![s[i as int]]);
                    assert(item_views(self.items@) =~= s.take(i as int) + s.skip(i as int).filter_map(f));
                }
            }
        }
        proof {
            assert(s.skip(0) =~= s);
            assert(s.take(0) + s.filter_map(f) =~= s.filter_map(f));
            lemma_host_index(s, alias@);
        }
        removed
    }

    /// Rename a group. Returns `false` if no group with `uuid` exists.
    pub fn rename_group(&mut self, uuid: &str, new_name: &str) -> (r: bool)
        ensures
            r == marker_index(old(self)@.items, uuid@) is Some,
            final(self)@ == rename_group_m(old(self)@, uuid@, new_name@),
    {
        let u = chars_of(uuid);
        let ghost iv = self@.items;
        let mut i: usize = 0;
        while i < self.items.len()
            invariant
                i <= self.items.len(),
                iv == self@.items,
                self@ == old(self)@,
                u@ == uuid@,
                forall|j: int| 0 <= j < i ==> !is_marker_for(#[trigger] iv[j], uuid@),
            decreases self.items.len() - i,
        {
            assert(iv[i as int] == self.items@[i as int]@);
            if item_is_marker_for(&self.items[i], &u) {
                proof {
                    lemma_marker_index_at(iv, uuid@, i as int);
                }
                let ghost before = self.items@;
                let n = chars_of(new_name);
                let raw = group_marker_text(&u, &n);
                let marker = Item::GroupMarker { uuid: u, name: n, raw };
                let ghost mv = marker@;
                self.items.remove(i);
                self.items.insert(i, marker);
                assert(item_views(self.items@) =~= item_views(before).update(i as int, mv));
                return true;
            }
            i += 1;
        }
        proof {
            lemma_marker_index_at(iv, uuid@, i as int);
        }
        false
    }

    /// Delete a group: remove its marker and every `#SCEGroup <uuid>`
    /// membership line (orphaned hosts move to the root). Returns `false` if
    /// no group with `uuid` existed.
    pub fn delete_group(&mut self, uuid: &str) -> (r: bool)
        ensures
            r == marker_index(old(self)@.items, uuid@) is Some,
            final(self)@ == delete_group_m(old(self)@, uuid@),
    {
        let u = chars_of(uuid);
        let sel = LineSelector::Member(u.clone());
        let ghost d = self@;
        let ghost s = d.items;
        let ghost f = group_remover(uuid@);
        let mut removed = false;
        let mut i: usize = self.items.len();
        proof {
            assert(s.skip(i as int) =~= Seq::<ItemModel>::empty());
            assert(s.skip(i as int).filter_map(f) =~= Seq::<ItemModel>::empty());
            assert(s.take(i as int) + s.skip(i as int).filter_map(f) =~= s);
        }
        while i > 0
            invariant
                i <= s.len(),
                u@ == uuid@,
                selector_pred(sel) == member_pred(uuid@),
                f == group_remover(uuid@),
                self@ == (DocModel { items: s.take(i as int) + s.skip(i as int).filter_map(f), ..d }),
                removed == exists|j: int| i <= j < s.len() && #[trigger] is_marker_for(s[j], uuid@),
            decreases i,
        {
            i -= 1;
            proof {
                lemma_filter_map_skip(s, i as int, f);
                let iv = item_views(self.items@);
                assert(iv.len() == self.items@.len());
                assert(iv == s.take(i + 1) + s.skip(i + 1).filter_map(f));
                assert(iv[i as int] == s[i as int]);
                assert(self.items@[i as int]@ == s[i as int]);
            }
            let ghost before = self.items@;
            if item_is_marker_for(&self.items[i], &u) {
                self.items.remove(i);
                removed = true;
                proof {
                    assert(item_views(self.items@) =~= item_views(before).remove(i as int));
                    assert(item_views(self.items@) =~= s.take(i as int) + s.skip(i as int).filter_map(f));
                }
            } else {
                let is_host = match &self.items[i] {
                    Item::Host(_) => true,
                    _ => false,
                };
                if is_host {
                    let mut h = self.take_host(i);
                    h.drop_lines_from(0, &sel);
                    proof {
                        lemma_drop_where_all(host_at(s, i as int).body, member_pred(uuid@));
                    }
                    self.put_host(i, h);
                }
                proof {
                    assert(s.take(i + 1) =~= s.take(i as int) + seq![s[i as int]]);
                    assert(item_views(self.items@) =~= s.take(i as int) + s.skip(i as int).filter_map(f));
                }
            }
        }
        proof {
            assert(s.skip(0) =~= s);
            assert(s.take(0) + s.filter_map(f) =~= s.filter_map(f));
            lemma_marker_index(s, uuid@);
        }
        removed
    }

    /// Append a group marker (set off by blank lines) for the given UUID and
    /// name.
    pub fn insert_group(&mut self, uuid: &str, name: &str)
        ensures
            final(self)@ == create_group_m(old(self)@, uuid@, name@),
    {
        let ghost d = self@;
        self.push_separator();
        let u = chars_of(uuid);
        let n = chars_of(name);
        let raw = group_marker_text(&u, &n);
        let marker = Item::GroupMarker { uuid: u, name: n, raw };
        let ghost before = self.items@;
        let ghost mv = marker@;
        self.items.push(marker);
        self.items.push(Item::Blank(Vec::new()));
        assert(item_views(self.items@) =~= item_views(before).push(mv).push(ItemModel::Blank(seq![])));
    }

    /// Create a group with a freshly generated SCE-style UUID (upper-case,
    /// version 4) and append its marker, set off by blank lines. Returns the
    /// new group's UUID.
    pub fn create_group(&mut self, name: &str) -> (r: String)
        ensures
            hyphenated(r@, true),
            version4_digits(r@, true),
            final(self)@ == create_group_m(old(self)@, r@, name@),
    {
        let raw = random_uuid();
        let lower = chars_of(raw.as_str());
        let up = upper_chars(&lower);
        proof {
            assert forall|i: int| 0 <= i < 36 implies if is_hyphen_pos(i) {
                up@[i] == '-'
            } else {
                is_upper_hex(#[trigger] up@[i])
            } by {
                assert(up@[i] == upper(lower@[i]));
            }
            assert(up@[14] == upper(lower@[14]));
            assert(up@[19] == upper(lower@[19]));
        }
        let id = string_of(&up);
        self.insert_group(id.as_str(), name);
        id
    }

    /// Append a blank line unless the document is empty or already ends with
    /// one.
    fn push_separator(&mut self)
        ensures
            final(self)@ == (DocModel { items: with_separator(old(self)@.items), ..old(self)@ }),
    {
        let n = self.items.len();
        if n > 0 {
            let last_blank = match &self.items[n - 1] {
                Item::Blank(_) => true,
                _ => false,
            };
            assert(self@.items.last() == self.items@[n - 1]@);
            if !last_blank {
                let ghost before = self.items@;
                self.items.push(Item::Blank(Vec::new()));
                assert(item_views(self.items@) =~= item_views(before).push(ItemModel::Blank(seq![])));
            }
        }
    }
}


fn port_chars(p: Option<u16>) -> (r: Option<Vec<char>>)
    ensures
        opt_chars_of(r) == port_text(p),
{
    match p {
        Some(n) => Some(crate::text::u16_to_chars(n)),
        None => None,
    }
}

impl SshConfigDocument {
    /// Create the host if absent, otherwise update its managed SSH
    /// directives in place. SCE metadata and unrecognized directives are left
    /// untouched.
    pub fn upsert_host(&mut self, alias: &str, fields: &CoreHostFields)
        ensures
            final(self)@ == upsert_host_m(old(self)@, alias@, fields@),
    {
        let a = chars_of(alias);
        let ghost d = self@;
        let ghost d1 = ensure_host_m(d, alias@);
        let i = match self.find_host(&a) {
            Some(i) => i,
            None => {
                proof {
                    lemma_host_index(d.items, alias@);
                }
                self.push_separator();
                let mut line = vec!['H', 'o', 's', 't', ' '];
                extend(&mut line, &a);
                let h = HostBlock {
                    leading_comments: Vec::new(),
                    raw_host_line: line,
                    host_indent: Vec::new(),
                    patterns: vec![a.clone()],
                    indent: self.default_indent.clone(),
                    body: Vec::new(),
                };
                let ghost hv = h@;
                proof {
                    assert(char_vecs(h.patterns@) =~= seq![alias@]);
                    assert(body_views(h.body@) =~= Seq::<BodyLineModel>::empty());
                    assert(char_vecs(h.leading_comments@) =~= Seq::<Seq<char>>::empty());
                    assert(hv =~= new_host(alias@, d.default_indent));
                }
                let ghost before = self.items@;
                self.items.push(Item::Host(h));
                proof {
                    assert(item_views(self.items@) =~= item_views(before).push(ItemModel::Host(hv)));
                    assert(self@ == d1);
                    let n = d1.items.len() - 1;
                    assert forall|j: int| 0 <= j < n implies !is_host_for(#[trigger] d1.items[j], alias@) by {
                        if j < d.items.len() {
                            assert(d1.items[j] == d.items[j]);
                        }
                    }
                    assert(hv.patterns[0] == alias@);
                    assert(is_host_for(d1.items[n], alias@));
                    lemma_host_index_at(d1.items, alias@, n);
                }
                self.items.len() - 1
            },
        };
        assert(self@ == d1);
        assert(host_index(d1.items, alias@) == Some(i as int));
        let mut h = self.take_host(i);
        let ghost h0 = h@;
        h.set_scalar(&keyword_vec(0), &opt_chars_of_string(&fields.hostname));
        h.set_scalar(&keyword_vec(1), &opt_chars_of_string(&fields.user));
        h.set_scalar(&keyword_vec(2), &port_chars(fields.port));
        h.set_scalar(&keyword_vec(3), &opt_chars_of_string(&fields.identity_file));
        h.set_scalar(&keyword_vec(4), &opt_chars_of_string(&fields.proxy_jump));
        h.set_forwards(&fields.forwards);
        assert(h@ == apply_core_m(h0, fields@));
        self.put_host(i, h);
        assert(self@.items =~= upsert_host_m(d, alias@, fields@).items);
    }
}


// ---------------------------------------------------------------------------
// Connection settings from a host
// ---------------------------------------------------------------------------
/// The forwards of a host that parse as port forwards, in order.
pub open spec fn parsed_forwards(fs: Seq<(PortForwardKind, Seq<char>)>) -> Seq<ForwardModel> {
    fs.filter_map(|f: (PortForwardKind, Seq<char>)| parse_forward(f.0, f.1))
}

/// Every port forward of a host's connection settings comes from one of its
/// forward directives and has that directive's kind (a `RemoteForward`
/// gives a remote forward, a `DynamicForward` a dynamic one); every
/// directive that parses as a forward gives one.
pub proof fn server_forwards_keep_their_kind(v: HostViewModel, alias: Seq<char>)
    ensures
        ({
            let r = server_info_of(v, alias).advanced.port_forwards;
            &&& forall|j: int|
                #![trigger r[j]]
                0 <= j < r.len() ==> exists|i: int|
                    0 <= i < v.forwards.len() && #[trigger] parse_forward(v.forwards[i].0, v.forwards[i].1)
                        == Some(r[j]) && r[j].kind == v.forwards[i].0
            &&& forall|i: int|
                0 <= i < v.forwards.len() && #[trigger] parse_forward(v.forwards[i].0, v.forwards[i].1)
                    is Some ==> r.contains(parse_forward(v.forwards[i].0, v.forwards[i].1)->0)
        }),
{
    let f = |e: (PortForwardKind, Seq<char>)| parse_forward(e.0, e.1);
    let r = server_info_of(v, alias).advanced.port_forwards;
    assert(r == v.forwards.filter_map(f));
    assert forall|j: int| #![trigger r[j]] 0 <= j < r.len() implies exists|i: int|
        0 <= i < v.forwards.len() && #[trigger] parse_forward(v.forwards[i].0, v.forwards[i].1) == Some(
            r[j],
        ) && r[j].kind == v.forwards[i].0 by {
        crate::text::lemma_filter_map_source(v.forwards, f, j);
        let i = choose|i: int| 0 <= i < v.forwards.len() && #[trigger] f(v.forwards[i]) == Some(r[j]);
        assert(parse_forward(v.forwards[i].0, v.forwards[i].1) == Some(r[j]));
        crate::types::lemma_parse_forward_kind(v.forwards[i].0, v.forwards[i].1);
    }
    assert forall|i: int|
        0 <= i < v.forwards.len() && #[trigger] parse_forward(v.forwards[i].0, v.forwards[i].1)
            is Some implies r.contains(parse_forward(v.forwards[i].0, v.forwards[i].1)->0) by {
        assert(f(v.forwards[i]) is Some);
        crate::text::lemma_filter_map_contains(v.forwards, f, i);
    }
}

/// The connection settings a host stands for: the destination is the
/// `HostName`, or the alias itself; the port defaults to 22; key
/// authentication when a non-empty `IdentityFile` is given, else password.
pub open spec fn server_info_of(v: HostViewModel, alias: Seq<char>) -> ServerModel {
    let key_path = match v.identity_file {
        Some(p) => if p.len() > 0 {
            Some(p)
        } else {
            None
        },
        None => None,
    };
    ServerModel {
        node_id: alias,
        host: match v.hostname {
            Some(h) => h,
            None => alias,
        },
        port: match v.port {
            Some(p) => p,
            None => 22,
        },
        username: match v.user {
            Some(u) => u,
            None => Seq::<char>::empty(),
        },
        auth_type: if key_path is Some {
            AuthType::Key
        } else {
            AuthType::Password
        },
        key_path,
        credential_id: None,
        startup_command: None,
        notes: v.description,
        last_connected_at: None,
        advanced: AdvancedModel { port_forwards: parsed_forwards(v.forwards), imported_from: None },
    }
}

impl HostView {
    /// The [`SshServerInfo`] used to open a connection (terminal or SFTP)
    /// to this host. `alias` is the `Host` pattern and the keychain lookup
    /// id. Without `HostName` the alias itself is the destination, so
    /// OpenSSH still resolves it. Auth is `Key` when an `IdentityFile` is
    /// present, else `Password`; the secret itself lives in the keychain.
    pub fn to_server_info(&self, alias: &str) -> (r: SshServerInfo)
        ensures
            r@ == server_info_of(self@, alias@),
    {
        let key_path = match &self.identity_file {
            Some(p) => if chars_of(p.as_str()).len() > 0 {
                Some(p.clone())
            } else {
                None
            },
            None => None,
        };
        let auth_type = if key_path.is_some() {
            AuthType::Key
        } else {
            AuthType::Password
        };
        let ghost fs = self@.forwards;
        let mut port_forwards: Vec<PortForward> = Vec::new();
        let mut i: usize = 0;
        while i < self.forwards.len()
            invariant
                i <= self.forwards.len(),
                fs == forward_views(self.forwards@),
                port_forwards@.map_values(|f: PortForward| f@) == parsed_forwards(fs.take(i as int)),
            decreases self.forwards.len() - i,
        {
            let e = &self.forwards[i];
            proof {
                lemma_map_take_succ(self.forwards@, i as int, |f: ForwardEntry| f@);
                assert(fs.take(i + 1) =~= fs.take(i as int) + seq![e@]);
                lemma_filter_map_add(fs.take(i as int), seq![e@], |f: (PortForwardKind, Seq<char>)| parse_forward(f.0, f.1));
                lemma_filter_map_single(e@, |f: (PortForwardKind, Seq<char>)| parse_forward(f.0, f.1));
            }
            match PortForward::from_config_spec(e.kind, e.spec.as_str()) {
                Some(pf) => {
                    let ghost prev = port_forwards@;
                    port_forwards.push(pf);
                    proof {
                        lemma_map_push(prev, pf, |f: PortForward| f@);
                    }
                },
                None => {},
            }
            i += 1;
        }
        assert(fs.take(i as int) =~= fs);
        let host = match &self.hostname {
            Some(h) => h.clone(),
            None => string_of(&chars_of(alias)),
        };
        let username = match &self.user {
            Some(u) => u.clone(),
            None => String::new(),
        };
        SshServerInfo {
            node_id: string_of(&chars_of(alias)),
            host,
            port: match self.port {
                Some(p) => p,
                None => 22,
            },
            username,
            auth_type,
            key_path,
            credential_id: None,
            startup_command: None,
            notes: match &self.description {
                Some(d) => Some(d.clone()),
                None => None,
            },
            last_connected_at: None,
            advanced: SshAdvancedConfig { port_forwards, imported_from: None },
        }
    }
}

} // verus!
