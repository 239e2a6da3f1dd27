//! `~/.ssh/config` → [`SshConfigCandidate`] importer.
//!
//! Only five fields are extracted (`Host` / `HostName` / `User` / `Port` /
//! `IdentityFile`); wildcard / negation `Host` patterns are skipped; `Match`
//! blocks are ignored entirely; `Include` is not followed; an invalid `Port`
//! yields `None` instead of falling back to 22. Within a block the first
//! declaration of a field wins; for `Port` that holds even when its value
//! does not parse, so `Port abc` followed by `Port 22` leaves the port unset.
use vstd::prelude::*;
use crate::text::{
    chars_of, eq_ic, eq_ignore_case, find_char, first_ws, index_of, lemma_map_push,
    lemma_map_take_succ, lines, parse_u16, parse_u16_chars, slice_of,
    split_lines, split_words, starts_with, string_of, trim, trim_chars, word_len, words,
    has_prefix, contains_char, char_vecs, lower, is_ws, lemma_trim_bounds, lemma_word_len_at,
    lemma_words_single, lemma_index_of_at, lemma_eq_ic_refl,
};
use crate::types::opt_str;

verus! {

pub open spec fn kw_host() -> Seq<char> {
    seq!['H', 'o', 's', 't']
}

pub open spec fn kw_match() -> Seq<char> {
    seq!['M', 'a', 't', 'c', 'h']
}

pub open spec fn kw_include() -> Seq<char> {
    seq!['I', 'n', 'c', 'l', 'u', 'd', 'e']
}

pub open spec fn kw_hostname() -> Seq<char> {
    seq!['H', 'o', 's', 't', 'N', 'a', 'm', 'e']
}

pub open spec fn kw_user() -> Seq<char> {
    seq!['U', 's', 'e', 'r']
}

pub open spec fn kw_port() -> Seq<char> {
    seq!['P', 'o', 'r', 't']
}

pub open spec fn kw_identity_file() -> Seq<char> {
    seq!['I', 'd', 'e', 'n', 't', 'i', 't', 'y', 'F', 'i', 'l', 'e']
}

pub open spec fn tilde_slash() -> Seq<char> {
    seq!['~', '/']
}

/// A single importable candidate sourced from a valid `Host` block.
/// `identity_file` holds the path with surrounding quotes removed and a
/// leading `~/` expanded to the home directory.
#[derive(Clone, Debug, PartialEq, Eq)]
pub struct SshConfigCandidate {
    pub alias: String,
    pub hostname: Option<String>,
    pub user: Option<String>,
    pub port: Option<u16>,
    pub identity_file: Option<String>,
}

pub ghost struct CandidateModel {
    pub alias: Seq<char>,
    pub hostname: Option<Seq<char>>,
    pub user: Option<Seq<char>>,
    pub port: Option<u16>,
    pub identity_file: Option<Seq<char>>,
}

impl View for SshConfigCandidate {
    type V = CandidateModel;

    open spec fn view(&self) -> CandidateModel {
        CandidateModel {
            alias: self.alias@,
            hostname: opt_str(self.hostname),
            user: opt_str(self.user),
            port: self.port,
            identity_file: opt_str(self.identity_file),
        }
    }
}

pub open spec fn candidate_views(v: Seq<SshConfigCandidate>) -> Seq<CandidateModel> {
    v.map_values(|c: SshConfigCandidate| c@)
}

/// The fields collected from the body of the current `Host` block.
pub ghost struct BodyModel {
    pub hostname: Option<Seq<char>>,
    pub user: Option<Seq<char>>,
    pub port: Option<u16>,
    /// A `Port` line has been seen in this block, whether or not it parsed.
    pub port_declared: bool,
    pub identity_file: Option<Seq<char>>,
}

pub ghost enum StateModel {
    /// No `Host` or `Match` directive seen yet.
    Outside,
    /// Inside a `Host` block with at least one literal alias.
    InHost { aliases: Seq<Seq<char>>, body: BodyModel },
    /// Inside an ignored block (`Match`, or a `Host` with only patterns).
    Ignored,
}

/// The line with everything from the first `#` on removed.
pub open spec fn strip_comment(l: Seq<char>) -> Seq<char> {
    match index_of(l, '#') {
        Some(k) => l.take(k),
        None => l,
    }
}

/// Keyword and value of a trimmed, non-empty line: the keyword runs up to
/// the first whitespace character, the value is the trimmed remainder.
pub open spec fn keyword_of(t: Seq<char>) -> Seq<char> {
    t.take(word_len(t) as int)
}

pub open spec fn value_of(t: Seq<char>) -> Seq<char> {
    if word_len(t) < t.len() {
        trim(t.skip(word_len(t) + 1int))
    } else {
        Seq::<char>::empty()
    }
}

/// A `Host` token that is a wildcard or negation pattern.
pub open spec fn is_pattern(tok: Seq<char>) -> bool {
    tok.contains('*') || tok.contains('?') || tok.contains('!')
}

/// The literal aliases among `Host` tokens, in order.
pub open spec fn literal_aliases(toks: Seq<Seq<char>>) -> Seq<Seq<char>>
    decreases toks.len(),
{
    if toks.len() == 0 {
        seq![]
    } else if is_pattern(toks.last()) {
        literal_aliases(toks.drop_last())
    } else {
        literal_aliases(toks.drop_last()).push(toks.last())
    }
}

/// Surrounding double quotes removed.
pub open spec fn unquote(s: Seq<char>) -> Seq<char> {
    if s.len() >= 2 && s[0] == '"' && s.last() == '"' {
        s.subrange(1, s.len() - 1)
    } else {
        s
    }
}

pub open spec fn empty_body() -> BodyModel {
    BodyModel { hostname: None, user: None, port: None, port_declared: false, identity_file: None }
}

/// One body line applied to the current block; the first declaration of a
/// field wins, for `Port` even when its value is not a valid port.
pub open spec fn apply_field(b: BodyModel, kw: Seq<char>, v: Seq<char>) -> BodyModel {
    if eq_ic(kw, kw_hostname()) {
        if b.hostname is None {
            BodyModel { hostname: Some(v), ..b }
        } else {
            b
        }
    } else if eq_ic(kw, kw_user()) {
        if b.user is None {
            BodyModel { user: Some(v), ..b }
        } else {
            b
        }
    } else if eq_ic(kw, kw_port()) {
        if !b.port_declared {
            BodyModel { port: parse_u16(v), port_declared: true, ..b }
        } else {
            b
        }
    } else if eq_ic(kw, kw_identity_file()) && b.identity_file is None {
        BodyModel { identity_file: Some(unquote(v)), ..b }
    } else {
        b
    }
}

/// The candidates a finished block contributes: one per literal alias, all
/// sharing the block's fields.
pub open spec fn flushed(st: StateModel) -> Seq<CandidateModel> {
    match st {
        StateModel::InHost { aliases, body } => aliases.map_values(
            |a: Seq<char>|
                CandidateModel {
                    alias: a,
                    hostname: body.hostname,
                    user: body.user,
                    port: body.port,
                    identity_file: body.identity_file,
                },
        ),
        _ => seq![],
    }
}

/// The importer's reaction to one line.
pub open spec fn step(acc: (StateModel, Seq<CandidateModel>), line: Seq<char>) -> (
    StateModel,
    Seq<CandidateModel>,
) {
    let t = trim(strip_comment(line));
    if t.len() == 0 {
        acc
    } else {
        let kw = keyword_of(t);
        let v = value_of(t);
        if eq_ic(kw, kw_host()) {
            let al = literal_aliases(words(v));
            (
                if al.len() == 0 {
                    StateModel::Ignored
                } else {
                    StateModel::InHost { aliases: al, body: empty_body() }
                },
                acc.1 + flushed(acc.0),
            )
        } else if eq_ic(kw, kw_match()) {
            (StateModel::Ignored, acc.1 + flushed(acc.0))
        } else if eq_ic(kw, kw_include()) {
            acc
        } else {
            match acc.0 {
                StateModel::InHost { aliases, body } => (
                    StateModel::InHost { aliases, body: apply_field(body, kw, v) },
                    acc.1,
                ),
                _ => acc,
            }
        }
    }
}

pub open spec fn run(ls: Seq<Seq<char>>) -> (StateModel, Seq<CandidateModel>)
    decreases ls.len(),
{
    if ls.len() == 0 {
        (StateModel::Outside, seq![])
    } else {
        step(run(ls.drop_last()), ls.last())
    }
}

/// The candidates of a config text, with identity files unquoted but not
/// yet tilde-expanded.
pub open spec fn config_candidates(content: Seq<char>) -> Seq<CandidateModel> {
    let r = run(lines(content));
    r.1 + flushed(r.0)
}

pub open spec fn literal_only(cs: Seq<CandidateModel>) -> bool {
    forall|i: int| 0 <= i < cs.len() ==> !is_pattern(#[trigger] cs[i].alias)
}

pub open spec fn state_literal(st: StateModel) -> bool {
    st matches StateModel::InHost { aliases, .. } ==> forall|i: int|
        0 <= i < aliases.len() ==> !is_pattern(#[trigger] aliases[i])
}

proof fn lemma_literal_aliases(toks: Seq<Seq<char>>)
    ensures
        forall|i: int|
            0 <= i < literal_aliases(toks).len() ==> !is_pattern(#[trigger] literal_aliases(toks)[i]),
    decreases toks.len(),
{
    if toks.len() > 0 {
        let prev = literal_aliases(toks.drop_last());
        lemma_literal_aliases(toks.drop_last());
        if !is_pattern(toks.last()) {
            let cur = literal_aliases(toks);
            assert(cur == prev.push(toks.last()));
            assert forall|i: int| 0 <= i < cur.len() implies !is_pattern(#[trigger] cur[i]) by {
                if i < prev.len() {
                    assert(cur[i] == prev[i]);
                }
            }
        }
    }
}

proof fn lemma_flushed_literal(st: StateModel)
    requires
        state_literal(st),
    ensures
        literal_only(flushed(st)),
{
}

proof fn lemma_run_literal(ls: Seq<Seq<char>>)
    ensures
        literal_only(run(ls).1),
        state_literal(run(ls).0),
    decreases ls.len(),
{
    if ls.len() > 0 {
        lemma_run_literal(ls.drop_last());
        let acc = run(ls.drop_last());
        lemma_flushed_literal(acc.0);
        let t = trim(strip_comment(ls.last()));
        lemma_literal_aliases(words(value_of(t)));
        let joined = acc.1 + flushed(acc.0);
        assert forall|i: int| 0 <= i < joined.len() implies !is_pattern(#[trigger] joined[i].alias) by {
            if i < acc.1.len() {
                assert(joined[i] == acc.1[i]);
            } else {
                assert(joined[i] == flushed(acc.0)[i - acc.1.len()]);
            }
        }
    }
}

/// No wildcard or negation pattern is ever imported: every candidate's alias
/// is a literal `Host` token.
pub proof fn imported_aliases_are_literal(content: Seq<char>)
    ensures
        literal_only(config_candidates(content)),
{
    let r = run(lines(content));
    lemma_run_literal(lines(content));
    lemma_flushed_literal(r.0);
    let cs = r.1 + flushed(r.0);
    assert forall|i: int| 0 <= i < cs.len() implies !is_pattern(#[trigger] cs[i].alias) by {
        if i < r.1.len() {
            assert(cs[i] == r.1[i]);
        } else {
            assert(cs[i] == flushed(r.0)[i - r.1.len()]);
        }
    }
}

/// `c` is the tilde-expanded form of the unexpanded candidate `m`.
pub open spec fn expanded_candidate(m: CandidateModel, c: CandidateModel) -> bool {
    &&& c.alias == m.alias
    &&& c.hostname == m.hostname
    &&& c.user == m.user
    &&& c.port == m.port
    &&& match (m.identity_file, c.identity_file) {
        (Some(raw), Some(actual)) => expanded_from(raw, actual),
        (None, None) => true,
        _ => false,
    }
}

// ---------------------------------------------------------------------------
// Exec
// ---------------------------------------------------------------------------
struct BodyFields {
    hostname: Option<Vec<char>>,
    user: Option<Vec<char>>,
    port: Option<u16>,
    port_declared: bool,
    identity_file: Option<Vec<char>>,
}

pub open spec fn opt_vec(o: Option<Vec<char>>) -> Option<Seq<char>> {
    match o {
        Some(v) => Some(v@),
        None => None,
    }
}

impl View for BodyFields {
    type V = BodyModel;

    closed spec fn view(&self) -> BodyModel {
        BodyModel {
            hostname: opt_vec(self.hostname),
            user: opt_vec(self.user),
            port: self.port,
            port_declared: self.port_declared,
            identity_file: opt_vec(self.identity_file),
        }
    }
}

enum ParseState {
    Outside,
    InHost { aliases: Vec<Vec<char>>, body: BodyFields },
    Ignored,
}


impl View for ParseState {
    type V = StateModel;

    closed spec fn view(&self) -> StateModel {
        match self {
            ParseState::Outside => StateModel::Outside,
            ParseState::InHost { aliases, body } => StateModel::InHost {
                aliases: char_vecs(aliases@),
                body: body@,
            },
            ParseState::Ignored => StateModel::Ignored,
        }
    }
}

fn copy_opt_vec(o: &Option<Vec<char>>) -> (r: Option<String>)
    ensures
        opt_str(r) == opt_vec(*o),
{
    match o {
        Some(v) => Some(string_of(v)),
        None => None,
    }
}

/// Emit one candidate per alias of a finished `Host` block.
fn flush(state: &ParseState, out: &mut Vec<SshConfigCandidate>)
    ensures
        candidate_views(final(out)@) == candidate_views(old(out)@) + flushed(state@),
{
    if let ParseState::InHost { aliases, body } = state {
        let ghost start = candidate_views(out@);
        let mut i: usize = 0;
        while i < aliases.len()
            invariant
                i <= aliases.len(),
                candidate_views(out@) == start + flushed(state@).take(i as int),
                state@ == (StateModel::InHost { aliases: char_vecs(aliases@), body: body@ }),
            decreases aliases.len() - i,
        {
            let c = SshConfigCandidate {
                alias: string_of(&aliases[i]),
                hostname: copy_opt_vec(&body.hostname),
                user: copy_opt_vec(&body.user),
                port: body.port,
                identity_file: copy_opt_vec(&body.identity_file),
            };
            let ghost prev = out@;
            out.push(c);
            proof {
                lemma_map_push(prev, c, |c: SshConfigCandidate| c@);
                assert(flushed(state@).take(i + 1) =~= flushed(state@).take(i as int).push(c@));
            }
            i += 1;
        }
        assert(flushed(state@).take(i as int) =~= flushed(state@));
    } else {
        assert(candidate_views(out@) =~= candidate_views(out@) + flushed(state@));
    }
}

fn kw_vec(which: u8) -> (r: Vec<char>)
    requires
        which < 7,
    ensures
        which == 0 ==> r@ == kw_host(),
        which == 1 ==> r@ == kw_match(),
        which == 2 ==> r@ == kw_include(),
        which == 3 ==> r@ == kw_hostname(),
        which == 4 ==> r@ == kw_user(),
        which == 5 ==> r@ == kw_port(),
        which == 6 ==> r@ == kw_identity_file(),
{
    if which == 0 {
        vec!['H', 'o', 's', 't']
    } else if which == 1 {
        vec!['M', 'a', 't', 'c', 'h']
    } else if which == 2 {
        vec!['I', 'n', 'c', 'l', 'u', 'd', 'e']
    } else if which == 3 {
        vec!['H', 'o', 's', 't', 'N', 'a', 'm', 'e']
    } else if which == 4 {
        vec!['U', 's', 'e', 'r']
    } else if which == 5 {
        vec!['P', 'o', 'r', 't']
    } else {
        vec!['I', 'd', 'e', 'n', 't', 'i', 't', 'y', 'F', 'i', 'l', 'e']
    }
}

/// `strip_surrounding_quotes`.
fn unquote_chars(s: &Vec<char>) -> (r: Vec<char>)
    ensures
        r@ == unquote(s@),
{
    if s.len() >= 2 && s[0] == '"' && s[s.len() - 1] == '"' {
        slice_of(s, 1, s.len() - 1)
    } else {
        s.clone()
    }
}

/// Apply one field to the current `Host` block body. First occurrence wins.
fn apply_body_field(body: &mut BodyFields, kw: &Vec<char>, v: &Vec<char>)
    ensures
        final(body)@ == apply_field(old(body)@, kw@, v@),
{
    if eq_ignore_case(kw, &kw_vec(3)) {
        if body.hostname.is_none() {
            body.hostname = Some(v.clone());
        }
    } else if eq_ignore_case(kw, &kw_vec(4)) {
        if body.user.is_none() {
            body.user = Some(v.clone());
        }
    } else if eq_ignore_case(kw, &kw_vec(5)) {
        if !body.port_declared {
            body.port = parse_u16_chars(v);
            body.port_declared = true;
        }
    } else if eq_ignore_case(kw, &kw_vec(6)) && body.identity_file.is_none() {
        body.identity_file = Some(unquote_chars(v));
    }
}

fn is_pattern_token(t: &Vec<char>) -> (b: bool)
    ensures
        b == is_pattern(t@),
{
    contains_char(t, '*') || contains_char(t, '?') || contains_char(t, '!')
}

/// `Host a *.prod b !bad` → `["a", "b"]`.
fn parse_host_aliases(value: &Vec<char>) -> (r: Vec<Vec<char>>)
    ensures
        char_vecs(r@) == literal_aliases(words(value@)),
{
    let toks = split_words(value);
    let ghost tv = char_vecs(toks@);
    let mut r: Vec<Vec<char>> = Vec::new();
    let mut i: usize = 0;
    while i < toks.len()
        invariant
            i <= toks.len(),
            tv == char_vecs(toks@),
            char_vecs(r@) == literal_aliases(tv.take(i as int)),
        decreases toks.len() - i,
    {
        proof {
            lemma_map_take_succ(toks@, i as int, |w: Vec<char>| w@);
            assert(tv.take(i + 1).drop_last() =~= tv.take(i as int));
        }
        if !is_pattern_token(&toks[i]) {
            let ghost prev = r@;
            r.push(toks[i].clone());
            proof {
                lemma_map_push(prev, toks@[i as int], |w: Vec<char>| w@);
            }
        }
        i += 1;
    }
    assert(tv.take(i as int) =~= tv);
    r
}

/// Keyword and value of a line, or `None` for a blank/comment-only line.
fn line_keyword_value(line: &Vec<char>) -> (r: Option<(Vec<char>, Vec<char>)>)
    ensures
        match r {
            None => trim(strip_comment(line@)).len() == 0,
            Some((kw, v)) => {
                let t = trim(strip_comment(line@));
                &&& t.len() > 0
                &&& kw@ == keyword_of(t)
                &&& v@ == value_of(t)
            },
        },
{
    let nc = match find_char(line, '#') {
        Some(k) => {
            proof {
                crate::text::lemma_index_of(line@, '#');
            }
            slice_of(line, 0, k)
        },
        None => line.clone(),
    };
    let t = trim_chars(&nc);
    if t.len() == 0 {
        return None;
    }
    let k = first_ws(&t);
    let kw = slice_of(&t, 0, k);
    let v = if k < t.len() {
        let rest = slice_of(&t, k + 1, t.len());
        assert(rest@ =~= t@.skip(k + 1));
        trim_chars(&rest)
    } else {
        Vec::new()
    };
    assert(kw@ =~= keyword_of(t@));
    assert(v@ =~= value_of(t@));
    Some((kw, v))
}

/// Parse an `ssh_config` body into its candidates, in the order of the `Host`
/// blocks; a `Host a b c` line yields one candidate per alias. Identity files
/// are unquoted but not tilde-expanded.
pub fn parse_ssh_config_unexpanded(content: &str) -> (r: Vec<SshConfigCandidate>)
    ensures
        candidate_views(r@) == config_candidates(content@),
{
    let text = chars_of(content);
    let ls = split_lines(&text);
    let ghost lv = char_vecs(ls@);
    let mut out: Vec<SshConfigCandidate> = Vec::new();
    let mut state = ParseState::Outside;
    let mut i: usize = 0;
    while i < ls.len()
        invariant
            i <= ls.len(),
            lv == char_vecs(ls@),
            (state@, candidate_views(out@)) == run(lv.take(i as int)),
        decreases ls.len() - i,
    {
        proof {
            lemma_map_take_succ(ls@, i as int, |w: Vec<char>| w@);
            assert(lv.take(i + 1).drop_last() =~= lv.take(i as int));
        }
        let ghost acc = (state@, candidate_views(out@));
        let line = &ls[i];
        match line_keyword_value(line) {
            None => {},
            Some((kw, v)) => {
                if eq_ignore_case(&kw, &kw_vec(0)) {
                    flush(&state, &mut out);
                    let aliases = parse_host_aliases(&v);
                    if aliases.len() == 0 {
                        state = ParseState::Ignored;
                    } else {
                        state =
                        ParseState::InHost {
                            aliases,
                            body: BodyFields {
                                hostname: None,
                                user: None,
                                port: None,
                                port_declared: false,
                                identity_file: None,
                            },
                        };
                    }
                } else if eq_ignore_case(&kw, &kw_vec(1)) {
                    flush(&state, &mut out);
                    state = ParseState::Ignored;
                } else if eq_ignore_case(&kw, &kw_vec(2)) {
                } else {
                    match &mut state {
                        ParseState::InHost { aliases: _, body } => {
                            apply_body_field(body, &kw, &v);
                        },
                        _ => {},
                    }
                }
            },
        }
        assert((state@, candidate_views(out@)) == step(acc, lv[i as int]));
        i += 1;
    }
    assert(lv.take(i as int) =~= lv);
    flush(&state, &mut out);
    out
}

/// The user's home directory (`dirs::home_dir`), as text. It depends on the
/// environment, so nothing is promised about it.
#[verifier::external_body]
fn home_dir() -> Option<String> {
    match dirs::home_dir() {
        Some(p) => Some(p.to_string_lossy().into_owned()),
        None => None,
    }
}

/// A single ordinary path component: non-empty, without a separator, a
/// drive colon, and not `.` or `..`.
pub open spec fn plain_component(s: Seq<char>) -> bool {
    &&& s.len() > 0
    &&& !s.contains('/')
    &&& !s.contains('\\')
    &&& !s.contains(':')
    &&& s != seq!['.']
    &&& s != seq!['.', '.']
}

/// A non-empty relative path with neither a root nor a drive prefix: it
/// does not start with a separator and holds no `:`. It may have several
/// components.
pub open spec fn relative_path(s: Seq<char>) -> bool {
    &&& s.len() > 0
    &&& !is_separator(s[0])
    &&& !s.contains(':')
}

/// A Windows verbatim path (`\\?\...`), which `Path::join` rebuilds.
pub open spec fn verbatim(s: Seq<char>) -> bool {
    starts_with(s, seq!['\\', '\\', '?', '\\'])
}

pub open spec fn is_separator(c: char) -> bool {
    c == '/' || c == '\\'
}

/// `r` is `base` joined with the relative path `rest`. Unless `base` is
/// verbatim, `r` is `base` followed by `rest`, with one separator (`/` or
/// `\\`, by platform) in between wherever `base` is non-empty and ends in
/// neither a separator nor a drive colon. When `rest` is a single plain
/// component, `r` ends with it in every case.
pub open spec fn joined(base: Seq<char>, rest: Seq<char>, r: Seq<char>) -> bool {
    &&& !verbatim(base) ==> (r == base + rest || r == base + seq!['/'] + rest || r == base
        + seq!['\\'] + rest)
    &&& (!verbatim(base) && base.len() > 0 && !is_separator(base.last()) && base.last() != ':')
        ==> (r == base + seq!['/'] + rest || r == base + seq!['\\'] + rest)
    &&& plain_component(rest) ==> (r.len() >= rest.len() && r.skip(r.len() - rest.len()) == rest)
}

/// `base` joined with `rest` by `Path::join`, as text. For a relative
/// `rest` (no root, no drive prefix) the documented behaviour of
/// `PathBuf::push` is stated: `rest` is appended to `base`, after the
/// platform's separator unless `base` is empty, already ends in a separator
/// or is a bare drive (`C:`). A verbatim `base` is rebuilt with `.` and `..`
/// resolved, so of it only a single appended plain component is stated. For
/// an empty or rooted `rest` (which replaces `base`) nothing is stated.
#[verifier::external_body]
fn path_join(base: &str, rest: &str) -> (r: String)
    ensures
        relative_path(rest@) ==> joined(base@, rest@, r@),
{
    std::path::Path::new(base).join(rest).to_string_lossy().into_owned()
}

// ---------------------------------------------------------------------------
// The shape of an import, stated block by block
// ---------------------------------------------------------------------------
/// A line's text with its comment removed and surrounding whitespace trimmed.
pub open spec fn line_text(l: Seq<char>) -> Seq<char> {
    trim(strip_comment(l))
}

/// A `Host` or `Match` line (keyword ASCII case-insensitive): it starts a
/// block, which runs up to the next such line.
pub open spec fn starts_block(l: Seq<char>) -> bool {
    let t = line_text(l);
    t.len() > 0 && (eq_ic(keyword_of(t), kw_host()) || eq_ic(keyword_of(t), kw_match()))
}

/// Index of the first line that starts a block (the length if none does).
pub open spec fn first_start(ls: Seq<Seq<char>>) -> int
    decreases ls.len(),
{
    if ls.len() == 0 {
        0
    } else if starts_block(ls[0]) {
        0
    } else {
        1 + first_start(ls.drop_first())
    }
}

pub proof fn lemma_first_start(ls: Seq<Seq<char>>)
    ensures
        0 <= first_start(ls) <= ls.len(),
        forall|i: int| 0 <= i < first_start(ls) ==> !starts_block(#[trigger] ls[i]),
        first_start(ls) < ls.len() ==> starts_block(ls[first_start(ls)]),
    decreases ls.len(),
{
    if ls.len() > 0 && !starts_block(ls[0]) {
        lemma_first_start(ls.drop_first());
        assert forall|i: int| 0 <= i < first_start(ls) implies !starts_block(#[trigger] ls[i]) by {
            if i > 0 {
                assert(ls[i] == ls.drop_first()[i - 1]);
            }
        }
        if first_start(ls) < ls.len() {
            assert(ls[first_start(ls)] == ls.drop_first()[first_start(ls.drop_first())]);
        }
    }
}

/// The value of the first line of `body` whose keyword is `kw` (ASCII
/// case-insensitive): the first declaration of that field.
pub open spec fn first_decl(body: Seq<Seq<char>>, kw: Seq<char>) -> Option<Seq<char>>
    decreases body.len(),
{
    if body.len() == 0 {
        None
    } else if eq_ic(keyword_of(line_text(body[0])), kw) {
        Some(value_of(line_text(body[0])))
    } else {
        first_decl(body.drop_first(), kw)
    }
}

/// The candidate for `alias` of a block with body lines `body`: the first
/// `HostName`, `User` and `IdentityFile` (quotes removed) and the first
/// `Port` declaration, `None` when that one is not a valid port.
pub open spec fn block_candidate(alias: Seq<char>, body: Seq<Seq<char>>) -> CandidateModel {
    CandidateModel {
        alias,
        hostname: first_decl(body, kw_hostname()),
        user: first_decl(body, kw_user()),
        port: match first_decl(body, kw_port()) {
            Some(v) => parse_u16(v),
            None => None,
        },
        identity_file: match first_decl(body, kw_identity_file()) {
            Some(v) => Some(unquote(v)),
            None => None,
        },
    }
}

/// What a block gives: for a `Host` line, one candidate per literal token
/// (none when every token is a pattern); for a `Match` line, nothing.
pub open spec fn block_candidates(start: Seq<char>, body: Seq<Seq<char>>) -> Seq<CandidateModel> {
    let t = line_text(start);
    if eq_ic(keyword_of(t), kw_host()) {
        literal_aliases(words(value_of(t))).map_values(|a: Seq<char>| block_candidate(a, body))
    } else {
        seq![]
    }
}

/// The candidates of a list of lines, block by block in order; lines
/// before the first `Host` or `Match` line give nothing.
pub open spec fn blocks_candidates(ls: Seq<Seq<char>>) -> Seq<CandidateModel>
    decreases ls.len(),
{
    let k = first_start(ls);
    if k < 0 || k >= ls.len() {
        seq![]
    } else {
        let rest = ls.skip(k + 1);
        let b = first_start(rest);
        if b < 0 || b > rest.len() {
            seq![]
        } else {
            block_candidates(ls[k], rest.take(b)) + blocks_candidates(rest.skip(b))
        }
    }
}

/// The importer's state machine, started from `acc`.
pub open spec fn run_from(acc: (StateModel, Seq<CandidateModel>), ls: Seq<Seq<char>>) -> (
    StateModel,
    Seq<CandidateModel>,
)
    decreases ls.len(),
{
    if ls.len() == 0 {
        acc
    } else {
        step(run_from(acc, ls.drop_last()), ls.last())
    }
}

/// One body line applied to the fields of the open block.
pub open spec fn body_step(b: BodyModel, l: Seq<char>) -> BodyModel {
    let t = line_text(l);
    if t.len() == 0 || eq_ic(keyword_of(t), kw_include()) {
        b
    } else {
        apply_field(b, keyword_of(t), value_of(t))
    }
}

pub open spec fn fold_body(b: BodyModel, ls: Seq<Seq<char>>) -> BodyModel
    decreases ls.len(),
{
    if ls.len() == 0 {
        b
    } else {
        body_step(fold_body(b, ls.drop_last()), ls.last())
    }
}

/// The state after more body lines of the open block.
pub open spec fn extend(st: StateModel, ls: Seq<Seq<char>>) -> StateModel {
    match st {
        StateModel::InHost { aliases, body } => StateModel::InHost { aliases, body: fold_body(body, ls) },
        _ => st,
    }
}

pub open spec fn total(acc: (StateModel, Seq<CandidateModel>)) -> Seq<CandidateModel> {
    acc.1 + flushed(acc.0)
}

/// The fields of a block body, by first declaration.
pub open spec fn decl_body(body: Seq<Seq<char>>) -> BodyModel {
    BodyModel {
        hostname: first_decl(body, kw_hostname()),
        user: first_decl(body, kw_user()),
        port: match first_decl(body, kw_port()) {
            Some(v) => parse_u16(v),
            None => None,
        },
        port_declared: first_decl(body, kw_port()) is Some,
        identity_file: match first_decl(body, kw_identity_file()) {
            Some(v) => Some(unquote(v)),
            None => None,
        },
    }
}

proof fn lemma_first_decl_push(body: Seq<Seq<char>>, l: Seq<char>, kw: Seq<char>)
    ensures
        first_decl(body.push(l), kw) == match first_decl(body, kw) {
            Some(v) => Some(v),
            None => if eq_ic(keyword_of(line_text(l)), kw) {
                Some(value_of(line_text(l)))
            } else {
                None
            },
        },
    decreases body.len(),
{
    if body.len() == 0 {
        assert(body.push(l)[0] == l);
        assert(body.push(l).drop_first() =~= Seq::<Seq<char>>::empty());
        assert(first_decl(Seq::<Seq<char>>::empty(), kw) is None);
    } else {
        assert(body.push(l)[0] == body[0]);
        assert(body.push(l).drop_first() =~= body.drop_first().push(l));
        lemma_first_decl_push(body.drop_first(), l, kw);
    }
}

/// A keyword matches at most one of the fields the importer reads.
proof fn lemma_fields_distinct(kw: Seq<char>)
    ensures
        eq_ic(kw, kw_user()) ==> !eq_ic(kw, kw_port()),
        eq_ic(kw, kw_include()) ==> !eq_ic(kw, kw_hostname()) && !eq_ic(kw, kw_user())
            && !eq_ic(kw, kw_port()) && !eq_ic(kw, kw_identity_file()),
{
    if eq_ic(kw, kw_user()) && eq_ic(kw, kw_port()) {
        assert(lower(kw[1]) == lower(kw_user()[1]));
        assert(lower(kw[1]) == lower(kw_port()[1]));
    }
}

proof fn lemma_fold_decl(body: Seq<Seq<char>>)
    ensures
        fold_body(empty_body(), body) == decl_body(body),
    decreases body.len(),
{
    if body.len() > 0 {
        let b0 = body.drop_last();
        let l = body.last();
        lemma_fold_decl(b0);
        assert(b0.push(l) =~= body);
        lemma_first_decl_push(b0, l, kw_hostname());
        lemma_first_decl_push(b0, l, kw_user());
        lemma_first_decl_push(b0, l, kw_port());
        lemma_first_decl_push(b0, l, kw_identity_file());
        let t = line_text(l);
        let kw = keyword_of(t);
        lemma_fields_distinct(kw);
        if t.len() == 0 {
            assert(word_len(t) == 0);
            assert(kw.len() == 0);
        }
    }
}

proof fn lemma_run_from_concat(acc: (StateModel, Seq<CandidateModel>), a: Seq<Seq<char>>, b: Seq<Seq<char>>)
    ensures
        run_from(acc, a + b) == run_from(run_from(acc, a), b),
    decreases b.len(),
{
    if b.len() == 0 {
        assert(a + b =~= a);
    } else {
        assert((a + b).drop_last() =~= a + b.drop_last());
        assert((a + b).last() == b.last());
        lemma_run_from_concat(acc, a, b.drop_last());
    }
}

/// Lines that start no block only feed the open block.
proof fn lemma_run_body(acc: (StateModel, Seq<CandidateModel>), ls: Seq<Seq<char>>)
    requires
        forall|i: int| 0 <= i < ls.len() ==> !starts_block(#[trigger] ls[i]),
    ensures
        run_from(acc, ls) == (extend(acc.0, ls), acc.1),
    decreases ls.len(),
{
    if ls.len() > 0 {
        let l0 = ls.drop_last();
        assert forall|i: int| 0 <= i < l0.len() implies !starts_block(#[trigger] l0[i]) by {
            assert(l0[i] == ls[i]);
        }
        lemma_run_body(acc, l0);
        assert(!starts_block(ls[ls.len() - 1]));
        let t = line_text(ls.last());
        lemma_fields_distinct(keyword_of(t));
    }
}

proof fn lemma_block_flushed(l: Seq<char>, body: Seq<Seq<char>>)
    requires
        starts_block(l),
    ensures
        ({
            let acc = (StateModel::Outside, Seq::<CandidateModel>::empty());
            flushed(extend(step(acc, l).0, body)) == block_candidates(l, body)
        }),
{
    lemma_fold_decl(body);
    let t = line_text(l);
    let al = literal_aliases(words(value_of(t)));
    if eq_ic(keyword_of(t), kw_host()) && al.len() > 0 {
        assert(flushed(extend(step((StateModel::Outside, Seq::<CandidateModel>::empty()), l).0, body))
            =~= block_candidates(l, body));
    } else if eq_ic(keyword_of(t), kw_host()) {
        assert(block_candidates(l, body) =~= Seq::<CandidateModel>::empty());
    }
}

proof fn lemma_blocks_skip(ls: Seq<Seq<char>>)
    ensures
        blocks_candidates(ls.skip(first_start(ls))) == blocks_candidates(ls),
{
    lemma_first_start(ls);
    let k = first_start(ls);
    let s2 = ls.skip(k);
    if k < ls.len() {
        assert(s2[0] == ls[k]);
        assert(first_start(s2) == 0);
        assert(s2.skip(1) =~= ls.skip(k + 1));
    } else {
        assert(s2 =~= Seq::<Seq<char>>::empty());
        assert(first_start(s2) == 0);
    }
}

proof fn lemma_run_blocks(acc: (StateModel, Seq<CandidateModel>), ls: Seq<Seq<char>>)
    ensures
        total(run_from(acc, ls)) == acc.1 + flushed(extend(acc.0, ls.take(first_start(ls))))
            + blocks_candidates(ls),
    decreases ls.len(),
{
    lemma_first_start(ls);
    let k = first_start(ls);
    if k == ls.len() {
        assert(ls.take(k) =~= ls);
        lemma_run_body(acc, ls);
        assert(blocks_candidates(ls) =~= Seq::<CandidateModel>::empty());
    } else {
        let pre = ls.take(k);
        let l = ls[k];
        let rest = ls.skip(k + 1);
        assert(ls =~= pre + seq![l] + rest);
        lemma_run_from_concat(acc, pre + seq![l], rest);
        lemma_run_from_concat(acc, pre, seq![l]);
        lemma_run_body(acc, pre);
        let a1 = run_from(acc, pre);
        assert(seq![l].drop_last() =~= Seq::<Seq<char>>::empty());
        assert(seq![l].last() == l);
        assert(run_from(a1, seq![l].drop_last()) == a1);
        assert(run_from(a1, seq![l]) == step(a1, l));
        let a2 = step(a1, l);
        lemma_fields_distinct(keyword_of(line_text(l)));
        assert(a2.1 == acc.1 + flushed(extend(acc.0, pre)));
        assert(a2.0 == step((StateModel::Outside, Seq::<CandidateModel>::empty()), l).0);
        lemma_run_blocks(a2, rest);
        lemma_first_start(rest);
        let b = first_start(rest);
        lemma_block_flushed(l, rest.take(b));
        lemma_blocks_skip(rest);
        assert(total(run_from(acc, ls)) =~= acc.1 + flushed(extend(acc.0, pre)) + blocks_candidates(
            ls,
        ));
    }
}

proof fn lemma_run_is_run_from(ls: Seq<Seq<char>>)
    ensures
        run(ls) == run_from((StateModel::Outside, Seq::<CandidateModel>::empty()), ls),
    decreases ls.len(),
{
    if ls.len() > 0 {
        lemma_run_is_run_from(ls.drop_last());
    }
}

/// The import, block by block: the candidates come in the order of the
/// `Host` lines; a `Host` line gives one candidate per token that is no
/// wildcard or negation pattern, all sharing the first `HostName`, `User`
/// and `IdentityFile` (quotes removed) and the first `Port` declaration
/// (`None` if that one is not a valid port) of the lines up to the next
/// `Host` or `Match` line; `Match` blocks and `Host` lines of patterns only
/// give nothing. Keywords are ASCII case-insensitive and text from the
/// first `#` of a line is ignored.
pub proof fn import_by_blocks(content: Seq<char>)
    ensures
        config_candidates(content) == blocks_candidates(lines(content)),
{
    let ls = lines(content);
    let init = (StateModel::Outside, Seq::<CandidateModel>::empty());
    lemma_run_is_run_from(ls);
    lemma_run_blocks(init, ls);
    assert(config_candidates(content) =~= blocks_candidates(ls));
}

/// A `Host` line naming one token imports exactly that token: for every
/// token `t` without whitespace, `#` (a comment) or any of the pattern
/// characters `*`, `?`, `!`, the text `Host t` gives one candidate, whose
/// alias is `t` and whose fields are all unset.
pub proof fn single_host_imports_its_alias(t: Seq<char>)
    requires
        t.len() > 0,
        forall|i: int|
            0 <= i < t.len() ==> !is_ws(#[trigger] t[i]) && t[i] != '*' && t[i] != '?' && t[i]
                != '!' && t[i] != '#',
    ensures
        config_candidates(seq!['H', 'o', 's', 't', ' '] + t) == seq![
            CandidateModel {
                alias: t,
                hostname: None,
                user: None,
                port: None,
                identity_file: None,
            },
        ],
{
    let s = seq!['H', 'o', 's', 't', ' '] + t;
    assert forall|j: int| 0 <= j < s.len() implies s[j] != '\n' && s[j] != '#' by {
        if j >= 5 {
            assert(s[j] == t[j - 5]);
            assert(!is_ws(t[j - 5]));
        }
    }
    lemma_index_of_at(s, '\n', s.len() as int);
    assert(lines(s) == seq![s]);
    lemma_index_of_at(s, '#', s.len() as int);
    assert(strip_comment(s) == s);
    assert(s[s.len() - 1] == t[t.len() - 1]);
    assert(!is_ws(s[0]));
    assert forall|i: int| s.len() <= i < s.len() implies is_ws(#[trigger] s[i]) by {}
    lemma_trim_bounds(s, 0, s.len() as int);
    assert(s.subrange(0, s.len() as int) =~= s);
    assert(trim(s) == s);
    assert forall|i: int| 0 <= i < 4 implies !is_ws(#[trigger] s[i]) by {}
    assert(is_ws(s[4]));
    lemma_word_len_at(s, 4);
    assert(keyword_of(s) =~= kw_host());
    lemma_eq_ic_refl(kw_host());
    let rest = s.skip(5);
    assert(rest =~= t);
    assert forall|i: int| 0 <= i < t.len() implies !is_ws(#[trigger] t[i]) by {}
    lemma_trim_bounds(t, 0, t.len() as int);
    assert(t.subrange(0, t.len() as int) =~= t);
    assert(value_of(s) == t);
    lemma_words_single(t);
    assert(!is_pattern(t));
    let ws = seq![t];
    assert(ws.drop_last() =~= Seq::<Seq<char>>::empty());
    assert(ws.last() == t);
    assert(literal_aliases(Seq::<Seq<char>>::empty()) == Seq::<Seq<char>>::empty());
    assert(literal_aliases(ws) == literal_aliases(ws.drop_last()).push(t));
    assert(Seq::<Seq<char>>::empty().push(t) =~= seq![t]);
    assert(literal_aliases(ws) == seq![t]);
    let ls = seq![s];
    assert(ls.drop_last() =~= Seq::<Seq<char>>::empty());
    let r = run(ls);
    assert(ls.last() == s);
    assert(run(ls.drop_last()) == (StateModel::Outside, Seq::<CandidateModel>::empty()));
    assert(r == step((StateModel::Outside, Seq::<CandidateModel>::empty()), s));
    assert(Seq::<CandidateModel>::empty() + flushed(StateModel::Outside) =~= Seq::<CandidateModel>::empty());
    assert(r == (StateModel::InHost { aliases: seq![t], body: empty_body() }, Seq::<CandidateModel>::empty()));
    assert(config_candidates(s) =~= seq![
        CandidateModel { alias: t, hostname: None, user: None, port: None, identity_file: None },
    ]);
}

/// `r` is `raw` after tilde expansion against the home directory `home`: a
/// `raw` of the form `~/rest` with a known home becomes the home joined
/// with `rest` (stated where `rest` is a relative path); any other `raw` is
/// kept as written.
pub open spec fn tilde_expansion(raw: Seq<char>, home: Option<Seq<char>>, r: Seq<char>) -> bool {
    if starts_with(raw, tilde_slash()) && home is Some {
        relative_path(raw.skip(2)) ==> joined(home->0, raw.skip(2), r)
    } else {
        r == raw
    }
}

/// An identity file as it stands after tilde expansion of `raw` against
/// the home directory of the moment, known or not.
pub open spec fn expanded_from(raw: Seq<char>, actual: Seq<char>) -> bool {
    exists|home: Option<Seq<char>>| #[trigger] tilde_expansion(raw, home, actual)
}

pub open spec fn opt_str_ref(o: Option<&str>) -> Option<Seq<char>> {
    match o {
        Some(h) => Some(h@),
        None => None,
    }
}

/// Expand a leading `~/` in `raw` against the home directory `home`; any
/// other path, or any path when the home is unknown, is kept.
pub fn expand_tilde_with(raw: &str, home: Option<&str>) -> (r: String)
    ensures
        tilde_expansion(raw@, opt_str_ref(home), r@),
{
    let c = chars_of(raw);
    if has_prefix(&c, &vec!['~', '/']) {
        match home {
            Some(h) => {
                let rest = string_of(&slice_of(&c, 2, c.len()));
                assert(rest@ == raw@.skip(2));
                return path_join(h, rest.as_str());
            },
            None => {},
        }
    }
    string_of(&c)
}

/// Expand a leading `~/` to the home directory, looked up only for such a
/// path; other paths are kept.
fn expand_tilde(s: &String) -> (r: String)
    ensures
        expanded_from(s@, r@),
{
    let c = chars_of(s.as_str());
    if !has_prefix(&c, &vec!['~', '/']) {
        let r = expand_tilde_with(s.as_str(), None);
        assert(tilde_expansion(s@, None, r@));
        return r;
    }
    let home = home_dir();
    let r = match &home {
        Some(h) => expand_tilde_with(s.as_str(), Some(h.as_str())),
        None => expand_tilde_with(s.as_str(), None),
    };
    let ghost hopt: Option<Seq<char>> = match home {
        Some(h) => Some(h@),
        None => None,
    };
    assert(tilde_expansion(s@, hopt, r@));
    r
}

/// Parse an `ssh_config` body and return an ordered list of candidates.
///
/// Order follows the appearance of `Host` blocks in the file; a `Host a b c`
/// line is expanded into three candidates that share the same body.
/// Identity files have surrounding quotes removed and a leading `~/`
/// expanded to the home directory.
pub fn parse_ssh_config(content: &str) -> (r: Vec<SshConfigCandidate>)
    ensures
        r.len() == config_candidates(content@).len(),
        forall|i: int|
            0 <= i < r.len() ==> expanded_candidate(
                #[trigger] config_candidates(content@)[i],
                r@[i]@,
            ),
{
    let mut raw = parse_ssh_config_unexpanded(content);
    let ghost m = candidate_views(raw@);
    assert(m.len() == raw@.len());
    let mut out: Vec<SshConfigCandidate> = Vec::new();
    let mut i: usize = 0;
    while i < raw.len()
        invariant
            i <= raw.len(),
            m == config_candidates(content@),
            m == candidate_views(raw@),
            out.len() == i,
            forall|j: int| 0 <= j < i ==> expanded_candidate(#[trigger] m[j], out@[j]@),
        decreases raw.len() - i,
    {
        let c = &raw[i];
        assert(m[i as int] == c@);
        let identity_file = match &c.identity_file {
            Some(p) => Some(expand_tilde(p)),
            None => None,
        };
        out.push(
            SshConfigCandidate {
                alias: c.alias.clone(),
                hostname: c.hostname.clone(),
                user: c.user.clone(),
                port: c.port,
                identity_file,
            },
        );
        i += 1;
    }
    out
}

/// The `.ssh/config` path under the home directory `home`: the home
/// joined with `.ssh`, then with `config`. `None` exactly when the home is
/// unknown.
pub fn config_path_under(home: Option<String>) -> (r: Option<String>)
    ensures
        r is None <==> home is None,
        r matches Some(p) ==> exists|d: Seq<char>|
            #[trigger] joined(home->0@, ".ssh"@, d) && joined(d, "config"@, p@),
{
    proof {
        reveal_strlit(".ssh");
        reveal_strlit("config");
    }
    match home {
        Some(h) => {
            let dot_ssh = path_join(h.as_str(), ".ssh");
            let p = path_join(dot_ssh.as_str(), "config");
            assert(joined(h@, ".ssh"@, dot_ssh@) && joined(dot_ssh@, "config"@, p@));
            Some(p)
        },
        None => None,
    }
}

/// The default `~/.ssh/config` path for the current user: the `.ssh/config`
/// path under the home directory (`config_path_under`), or `None` when the
/// home directory cannot be determined.
pub fn default_ssh_config_path() -> (r: Option<String>)
    ensures
        r matches Some(p) ==> exists|home: Seq<char>, d: Seq<char>|
            #[trigger] joined(home, ".ssh"@, d) && joined(d, "config"@, p@),
{
    let home = home_dir();
    let ghost h = home;
    let r = config_path_under(home);
    proof {
        if r is Some {
            let p = r->0;
            let d = choose|d: Seq<char>| #[trigger] joined(h->0@, ".ssh"@, d) && joined(d, "config"@, p@);
            assert(joined(h->0@, ".ssh"@, d) && joined(d, "config"@, p@));
        }
    }
    r
}

/// What reading the config file gave.
pub enum ConfigRead {
    /// The file's text.
    Contents(String),
    /// The path does not exist.
    Missing,
    /// Another IO error, with a human-readable message.
    Failed(String),
}

/// The parsed result together with the path that was attempted.
#[derive(Debug)]
pub struct LoadResult {
    /// The path that was attempted; `None` when the home directory itself
    /// could not be determined.
    pub path: Option<String>,
    pub outcome: LoadOutcome,
}

#[derive(Debug)]
pub enum LoadOutcome {
    /// The file was read and parsed (the list may be empty).
    Loaded(Vec<SshConfigCandidate>),
    /// The path does not exist — a clean state.
    NotFound,
    /// An IO error occurred; the message is for display.
    Error(String),
}

pub open spec fn home_unknown_message() -> Seq<char> {
    seq![
        'C', 'o', 'u', 'l', 'd', ' ', 'n', 'o', 't', ' ', 'd', 'e', 't', 'e', 'r', 'm', 'i', 'n',
        'e', ' ', 'h', 'o', 'm', 'e', ' ', 'd', 'i', 'r', 'e', 'c', 't', 'o', 'r', 'y',
    ]
}

/// The outcome of one read of the config file: its candidates, `NotFound`,
/// or the read error.
pub fn load_outcome(read: ConfigRead) -> (r: LoadOutcome)
    ensures
        match (read, r) {
            (ConfigRead::Contents(s), LoadOutcome::Loaded(v)) => v.len() == config_candidates(
                s@,
            ).len() && forall|i: int|
                0 <= i < v.len() ==> expanded_candidate(
                    #[trigger] config_candidates(s@)[i],
                    v@[i]@,
                ),
            (ConfigRead::Missing, LoadOutcome::NotFound) => true,
            (ConfigRead::Failed(m), LoadOutcome::Error(e)) => e@ == m@,
            _ => false,
        },
{
    match read {
        ConfigRead::Contents(s) => LoadOutcome::Loaded(parse_ssh_config(s.as_str())),
        ConfigRead::Missing => LoadOutcome::NotFound,
        ConfigRead::Failed(m) => LoadOutcome::Error(m),
    }
}

/// The load result for an attempted path (`None`: the home directory is
/// unknown, reported as an error) and what reading it gave.
pub fn load_result(path: Option<String>, read: ConfigRead) -> (r: LoadResult)
    ensures
        opt_str(r.path) == opt_str(path),
        path is None ==> (r.outcome matches LoadOutcome::Error(e) && e@ == home_unknown_message()),
        path is Some ==> match (read, r.outcome) {
            (ConfigRead::Contents(s), LoadOutcome::Loaded(v)) => v.len() == config_candidates(
                s@,
            ).len() && forall|i: int|
                0 <= i < v.len() ==> expanded_candidate(
                    #[trigger] config_candidates(s@)[i],
                    v@[i]@,
                ),
            (ConfigRead::Missing, LoadOutcome::NotFound) => true,
            (ConfigRead::Failed(m), LoadOutcome::Error(e)) => e@ == m@,
            _ => false,
        },
{
    match path {
        Some(p) => LoadResult { path: Some(p), outcome: load_outcome(read) },
        None => {
            let msg = string_of(
                &vec![
                    'C', 'o', 'u', 'l', 'd', ' ', 'n', 'o', 't', ' ', 'd', 'e', 't', 'e', 'r', 'm',
                    'i', 'n', 'e', ' ', 'h', 'o', 'm', 'e', ' ', 'd', 'i', 'r', 'e', 'c', 't', 'o',
                    'r', 'y',
                ],
            );
            LoadResult { path: None, outcome: LoadOutcome::Error(msg) }
        },
    }
}

} // verus!
