//! Assembles an [`SshServerInfo`] into `ssh ...` argument lists and command
//! lines, and decides the outcome of a connection test from what the `ssh`
//! child process reported.
//!
//! Every argument that reaches a terminal command line is shell-escaped, so
//! spaces or quotes in user names, hosts or key paths cannot break it, and
//! `--` always stands right before the destination, so a host or user name
//! starting with `-` cannot be taken for an option.
use vstd::prelude::*;
use vstd::string::StringSliceAdditionalSpecFns;
use crate::config_model::{join_space, string_views};
use crate::text::{
    chars_eq, chars_of, dec_str, extend, find_seq, index_of_seq, slice_of, string_of, trim,
    trim_chars, u16_to_chars,
};
use crate::types::{
    opt_str, ssh_flag_of, ssh_spec, AuthType, ConnectionStatus, ForwardModel, PortForward,
    ServerModel, SshServerInfo,
};

verus! {

// ---------------------------------------------------------------------------
// Shell escaping
// ---------------------------------------------------------------------------
/// Characters that never need quoting for a POSIX shell.
pub open spec fn shell_safe(c: char) -> bool {
    ('a' <= c && c <= 'z') || ('A' <= c && c <= 'Z') || ('0' <= c && c <= '9') || c == '-' || c
        == '_' || c == '=' || c == '/' || c == ',' || c == '.' || c == '+'
}

/// One character inside single quotes: `'` and `!` leave the quotes, are
/// backslash-escaped, and re-enter them.
pub open spec fn quote_char(c: char) -> Seq<char> {
    if c == '\'' || c == '!' {
        seq!['\'', '\\', c, '\'']
    } else {
        seq![c]
    }
}

pub open spec fn quoted_body(s: Seq<char>) -> Seq<char>
    decreases s.len(),
{
    if s.len() == 0 {
        seq![]
    } else {
        quoted_body(s.drop_last()) + quote_char(s.last())
    }
}

/// A word as the shell must see it: unchanged when it is non-empty and made
/// of safe characters only, else single-quoted.
pub open spec fn shell_escaped(s: Seq<char>) -> Seq<char> {
    if s.len() > 0 && forall|i: int| 0 <= i < s.len() ==> shell_safe(#[trigger] s[i]) {
        s
    } else {
        seq!['\''] + quoted_body(s) + seq!['\'']
    }
}

/// `shell_escape::unix::escape`: returns the word unchanged when it is
/// non-empty and every character is an ASCII letter or digit or one of
/// `-_=/,.+`; otherwise wraps it in single quotes, writing each `'` and `!`
/// as `'\'` / `'\!` followed by a reopening `'`.
#[verifier::external_body]
fn shell_escape_word(s: &str) -> (r: String)
    ensures
        r@ == shell_escaped(s@),
{
    shell_escape::unix::escape(std::borrow::Cow::Borrowed(s)).to_string()
}

// ---------------------------------------------------------------------------
// Arguments
// ---------------------------------------------------------------------------
pub open spec fn word_ssh() -> Seq<char> {
    "ssh"@
}

pub open spec fn word_dashes() -> Seq<char> {
    "--"@
}

/// `user@host`, or the host alone when the user name is empty.
pub open spec fn destination(s: ServerModel) -> Seq<char> {
    if s.username.len() == 0 {
        s.host
    } else {
        s.username + seq!['@'] + s.host
    }
}

/// `-p <port>` unless the port is 22.
pub open spec fn port_args(s: ServerModel) -> Seq<Seq<char>> {
    if s.port != 22 {
        seq!["-p"@, dec_str(s.port as nat)]
    } else {
        seq![]
    }
}

/// `-i <key>` for key-based authentication with a non-empty key path.
pub open spec fn key_args(s: ServerModel) -> Seq<Seq<char>> {
    if s.auth_type != AuthType::Password && s.key_path is Some && s.key_path->0.len() > 0 {
        seq!["-i"@, s.key_path->0]
    } else {
        seq![]
    }
}

/// The options of a plain `ssh` invocation, without the program name.
pub open spec fn ssh_options(s: ServerModel) -> Seq<Seq<char>> {
    port_args(s) + key_args(s)
}

/// `ssh [-p port] [-i key] destination`.
pub open spec fn ssh_args(s: ServerModel) -> Seq<Seq<char>> {
    seq![word_ssh()] + ssh_options(s) + seq![destination(s)]
}

/// `-L/-R/-D <spec>` for every forward that renders; the others are skipped.
pub open spec fn forward_args(fs: Seq<ForwardModel>) -> Seq<Seq<char>>
    decreases fs.len(),
{
    if fs.len() == 0 {
        seq![]
    } else {
        forward_args(fs.drop_last()) + match ssh_spec(fs.last()) {
            Some(spec) => seq![ssh_flag_of(fs.last().kind), spec],
            None => seq![],
        }
    }
}

/// The words of the terminal command line: `ssh`, the options, the
/// forwards, `--` and the destination.
pub open spec fn command_line_args(s: ServerModel) -> Seq<Seq<char>> {
    seq![word_ssh()] + ssh_options(s) + forward_args(s.advanced.port_forwards) + seq![
        word_dashes(),
        destination(s),
    ]
}

fn str_of(s: &str) -> (r: String)
    ensures
        r@ == s@,
{
    s.to_owned()
}

fn push_str(args: &mut Vec<String>, s: &str)
    ensures
        string_views(final(args)@) == string_views(old(args)@).push(s@),
{
    let w = str_of(s);
    let ghost prev = args@;
    args.push(w);
    proof {
        crate::text::lemma_map_push(prev, w, |s: String| s@);
    }
}

fn push_string(args: &mut Vec<String>, s: String)
    ensures
        string_views(final(args)@) == string_views(old(args)@).push(s@),
{
    let ghost prev = args@;
    let ghost sv = s;
    args.push(s);
    proof {
        crate::text::lemma_map_push(prev, sv, |s: String| s@);
    }
}

fn destination_of(server: &SshServerInfo) -> (r: String)
    ensures
        r@ == destination(server@),
{
    let user = chars_of(server.username.as_str());
    if user.len() == 0 {
        server.host.clone()
    } else {
        let mut t = user;
        t.push('@');
        extend(&mut t, &chars_of(server.host.as_str()));
        assert(t@ =~= server.username@ + seq!['@'] + server.host@);
        string_of(&t)
    }
}

/// Push `-p <port>` and `-i <key>` as the server calls for them.
fn push_options(args: &mut Vec<String>, server: &SshServerInfo)
    ensures
        string_views(final(args)@) == string_views(old(args)@) + ssh_options(server@),
{
    let ghost start = string_views(args@);
    if server.port != 22 {
        push_str(args, "-p");
        push_string(args, string_of(&u16_to_chars(server.port)));
    }
    assert(string_views(args@) =~= start + port_args(server@));
    let ghost mid = string_views(args@);
    if server.auth_type != AuthType::Password {
        if let Some(path) = &server.key_path {
            if chars_of(path.as_str()).len() > 0 {
                push_str(args, "-i");
                push_string(args, path.clone());
            }
        }
    }
    assert(string_views(args@) =~= mid + key_args(server@));
}

/// `ssh [-p port] [-i key] destination`: `-p` only for a port other than 22,
/// `-i` only for key-based authentication with a non-empty key path, and
/// the destination is `user@host`, or the host alone without a user name.
pub fn build_ssh_args(server: &SshServerInfo) -> (r: Vec<String>)
    ensures
        string_views(r@) == ssh_args(server@),
{
    let mut args: Vec<String> = Vec::new();
    push_str(&mut args, "ssh");
    push_options(&mut args, server);
    push_string(&mut args, destination_of(server));
    assert(string_views(args@) =~= ssh_args(server@));
    args
}

/// Push the `-L/-R/-D <spec>` options for the server's port forwards, in
/// order. A forward that cannot be rendered (a Local/Remote forward without
/// a target) is skipped rather than aborting the connection.
fn push_port_forward_args(args: &mut Vec<String>, server: &SshServerInfo)
    ensures
        string_views(final(args)@) == string_views(old(args)@) + forward_args(
            server@.advanced.port_forwards,
        ),
{
    let ghost start = string_views(args@);
    let ghost fs = server@.advanced.port_forwards;
    let forwards = &server.advanced.port_forwards;
    let mut i: usize = 0;
    while i < forwards.len()
        invariant
            i <= forwards.len(),
            forwards == &server.advanced.port_forwards,
            fs == forwards@.map_values(|f: PortForward| f@),
            string_views(args@) == start + forward_args(fs.take(i as int)),
        decreases forwards.len() - i,
    {
        let f = &forwards[i];
        proof {
            assert(fs.take(i + 1).drop_last() =~= fs.take(i as int));
            assert(fs.take(i + 1).last() == f@);
        }
        match f.to_ssh_spec() {
            Some(spec) => {
                push_str(args, f.ssh_flag());
                push_string(args, spec);
            },
            None => {},
        }
        proof {
            assert(string_views(args@) =~= start + forward_args(fs.take(i + 1)));
        }
        i += 1;
    }
    assert(fs.take(i as int) =~= fs);
}

/// Join the words, each shell-escaped, with single spaces.
fn escape_and_join(words: &Vec<String>) -> (r: String)
    ensures
        r@ == join_space(string_views(words@).map_values(|w: Seq<char>| shell_escaped(w))),
{
    let ghost es = string_views(words@).map_values(|w: Seq<char>| shell_escaped(w));
    let mut out: Vec<char> = Vec::new();
    let mut k: usize = 0;
    while k < words.len()
        invariant
            k <= words.len(),
            es == string_views(words@).map_values(|w: Seq<char>| shell_escaped(w)),
            out@ == join_space(es.take(k as int)),
        decreases words.len() - k,
    {
        let ghost prev = out@;
        if k > 0 {
            out.push(' ');
        }
        let e = shell_escape_word(words[k].as_str());
        extend(&mut out, &chars_of(e.as_str()));
        proof {
            assert(es[k as int] == e@);
            assert(es.take(k + 1).drop_last() =~= es.take(k as int));
            assert(es.take(k + 1).last() == e@);
            if k == 0 {
                assert(out@ =~= es.take(1)[0]);
            } else {
                assert(out@ =~= prev + seq![' '] + e@);
            }
        }
        k += 1;
    }
    assert(es.take(k as int) =~= es);
    string_of(&out)
}

/// The `ssh ...` command line to type into a terminal: the options, the
/// port forwards, `--` right before the destination, every word
/// shell-escaped and separated by single spaces.
pub fn build_ssh_command_line(server: &SshServerInfo) -> (r: String)
    ensures
        r@ == join_space(command_line_args(server@).map_values(|w: Seq<char>| shell_escaped(w))),
{
    let mut args: Vec<String> = Vec::new();
    push_str(&mut args, "ssh");
    push_options(&mut args, server);
    push_port_forward_args(&mut args, server);
    push_str(&mut args, "--");
    push_string(&mut args, destination_of(server));
    assert(string_views(args@) =~= command_line_args(server@));
    escape_and_join(&args)
}

/// `ssh -- <alias>` for a `~/.ssh/config` host that OpenSSH resolves
/// itself; the alias is shell-escaped.
pub fn build_ssh_alias_command_line(alias: &str) -> (r: String)
    ensures
        r@ == "ssh -- "@ + shell_escaped(alias@),
{
    let mut out = chars_of("ssh -- ");
    let e = shell_escape_word(alias);
    extend(&mut out, &chars_of(e.as_str()));
    string_of(&out)
}

// ---------------------------------------------------------------------------
// Connection-test argument lists
// ---------------------------------------------------------------------------
/// The `-o` options of a key-authentication test.
pub open spec fn key_test_options() -> Seq<Seq<char>> {
    seq![
        "-o"@,
        "BatchMode=yes"@,
        "-o"@,
        "ConnectTimeout=5"@,
        "-o"@,
        "StrictHostKeyChecking=no"@,
        "-o"@,
        "LogLevel=ERROR"@,
    ]
}

/// The `-o` options of a password-authentication test: password only (no
/// keyboard-interactive fallback), one prompt, short connect timeout, no
/// host-key prompt, no noise.
pub open spec fn password_test_options() -> Seq<Seq<char>> {
    seq![
        "-o"@,
        "BatchMode=no"@,
        "-o"@,
        "PreferredAuthentications=password"@,
        "-o"@,
        "KbdInteractiveAuthentication=no"@,
        "-o"@,
        "NumberOfPasswordPrompts=1"@,
        "-o"@,
        "ConnectTimeout=5"@,
        "-o"@,
        "StrictHostKeyChecking=no"@,
        "-o"@,
        "LogLevel=ERROR"@,
    ]
}

/// `--`, the destination and the remote command `echo ok`.
pub open spec fn test_tail(s: ServerModel) -> Seq<Seq<char>> {
    seq![word_dashes(), destination(s), "echo ok"@]
}

/// The full argv of a key-authentication test, `ssh` included.
pub open spec fn key_test_args(s: ServerModel) -> Seq<Seq<char>> {
    seq![word_ssh()] + ssh_options(s) + key_test_options() + test_tail(s)
}

/// The argv of a password-authentication test, without the program name.
pub open spec fn password_test_args(s: ServerModel) -> Seq<Seq<char>> {
    ssh_options(s) + password_test_options() + test_tail(s)
}

fn push_test_tail(args: &mut Vec<String>, server: &SshServerInfo)
    ensures
        string_views(final(args)@) == string_views(old(args)@) + test_tail(server@),
{
    let ghost start = string_views(args@);
    push_str(args, "--");
    push_string(args, destination_of(server));
    push_str(args, "echo ok");
    assert(string_views(args@) =~= start + test_tail(server@));
}

/// The argv of a key-authentication connection test: the plain `ssh`
/// options, then `BatchMode=yes` and the other test options, `--`, the
/// destination and the remote command `echo ok`.
pub fn build_key_auth_cmd_args(server: &SshServerInfo) -> (r: Vec<String>)
    ensures
        string_views(r@) == key_test_args(server@),
{
    let mut args: Vec<String> = Vec::new();
    push_str(&mut args, "ssh");
    push_options(&mut args, server);
    let ghost mid = string_views(args@);
    push_str(&mut args, "-o");
    push_str(&mut args, "BatchMode=yes");
    push_str(&mut args, "-o");
    push_str(&mut args, "ConnectTimeout=5");
    push_str(&mut args, "-o");
    push_str(&mut args, "StrictHostKeyChecking=no");
    push_str(&mut args, "-o");
    push_str(&mut args, "LogLevel=ERROR");
    assert(string_views(args@) =~= mid + key_test_options());
    push_test_tail(&mut args, server);
    assert(string_views(args@) =~= key_test_args(server@));
    args
}

/// The argv of the `ssh` child of a password-authentication test, without
/// the program name: the plain options, then the password-only test
/// options, `--`, the destination and `echo ok`.
pub fn build_password_auth_cmd_args(server: &SshServerInfo) -> (r: Vec<String>)
    ensures
        string_views(r@) == password_test_args(server@),
{
    let mut args: Vec<String> = Vec::new();
    push_options(&mut args, server);
    let ghost mid = string_views(args@);
    push_str(&mut args, "-o");
    push_str(&mut args, "BatchMode=no");
    push_str(&mut args, "-o");
    push_str(&mut args, "PreferredAuthentications=password");
    push_str(&mut args, "-o");
    push_str(&mut args, "KbdInteractiveAuthentication=no");
    push_str(&mut args, "-o");
    push_str(&mut args, "NumberOfPasswordPrompts=1");
    push_str(&mut args, "-o");
    push_str(&mut args, "ConnectTimeout=5");
    push_str(&mut args, "-o");
    push_str(&mut args, "StrictHostKeyChecking=no");
    push_str(&mut args, "-o");
    push_str(&mut args, "LogLevel=ERROR");
    assert(string_views(args@) =~= mid + password_test_options());
    push_test_tail(&mut args, server);
    assert(string_views(args@) =~= password_test_args(server@));
    args
}

/// The bytes written to `ssh`'s stdin in a password test: the password's
/// UTF-8 bytes and a newline.
pub fn build_password_auth_stdin(password: &str) -> (r: Vec<u8>)
    ensures
        r@ == password.spec_bytes().push(10u8),
{
    let b = password.as_bytes();
    let mut v: Vec<u8> = Vec::new();
    let mut i: usize = 0;
    while i < b.len()
        invariant
            i <= b.len(),
            b@ == password.spec_bytes(),
            v@ == b@.take(i as int),
        decreases b.len() - i,
    {
        v.push(b[i]);
        i += 1;
        assert(v@ =~= b@.take(i as int));
    }
    assert(b@.take(i as int) =~= b@);
    v.push(10u8);
    v
}

// ---------------------------------------------------------------------------
// Connection-test outcomes
// ---------------------------------------------------------------------------
/// What a connection test reports.
pub struct ConnectionTestResult {
    pub status: ConnectionStatus,
    pub latency_ms: Option<u64>,
    pub error_message: Option<String>,
}

/// The report of a finished test: online on success, offline with the
/// error otherwise; the latency is reported either way.
pub fn connection_result(outcome: Result<(), String>, latency_ms: u64) -> (r: ConnectionTestResult)
    ensures
        r.latency_ms == Some(latency_ms),
        match outcome {
            Ok(()) => r.status == ConnectionStatus::Online && r.error_message is None,
            Err(e) => r.status == ConnectionStatus::Offline && opt_str(r.error_message) == Some(e@),
        },
{
    match outcome {
        Ok(()) => ConnectionTestResult {
            status: ConnectionStatus::Online,
            latency_ms: Some(latency_ms),
            error_message: None,
        },
        Err(e) => ConnectionTestResult {
            status: ConnectionStatus::Offline,
            latency_ms: Some(latency_ms),
            error_message: Some(e),
        },
    }
}

pub open spec fn contains_seq(s: Seq<char>, p: Seq<char>) -> bool {
    index_of_seq(s, p) is Some
}

fn contains_str(s: &Vec<char>, p: &str) -> (b: bool)
    ensures
        b == contains_seq(s@, p@),
{
    find_seq(s, &chars_of(p)).is_some()
}

fn failure_with(parts: &Vec<char>) -> (r: Result<(), String>)
    ensures
        r matches Err(e) && e@ == parts@,
{
    Err(string_of(parts))
}

/// The outcome of a key-authentication test from what `ssh` reported: the
/// run counts when it exited successfully or its output mentions `ok`, and
/// then passes only when the trimmed output is exactly `ok`; a run that
/// does not count fails with its error output.
pub open spec fn key_test_outcome(success: bool, stdout: Seq<char>, stderr: Seq<char>) -> Result<
    (),
    Seq<char>,
> {
    if success || contains_seq(stdout, "ok"@) {
        if trim(stdout) == "ok"@ {
            Ok(())
        } else {
            Err("Unexpected output: "@ + trim(stdout))
        }
    } else {
        Err(stderr)
    }
}

/// The error detail of a refused password: the trimmed error output in
/// parentheses, cut to 200 characters (then marked `...`).
pub open spec fn refusal_detail(t: Seq<char>) -> Seq<char> {
    if t.len() == 0 {
        seq![]
    } else if t.len() > 200 {
        " ("@ + t.take(200) + "...)"@
    } else {
        " ("@ + t + ")"@
    }
}

/// The outcome of a password-authentication test from what `ssh`
/// reported: success only for a successful exit whose trimmed output is
/// exactly `ok`; an error output that says the password was refused gives
/// `Authentication failed: wrong password` with the detail; anything else
/// is unexpected output.
pub open spec fn password_test_outcome(success: bool, stdout: Seq<char>, stderr: Seq<char>) -> Result<
    (),
    Seq<char>,
> {
    let e = trim(stderr);
    if success && trim(stdout) == "ok"@ {
        Ok(())
    } else if contains_seq(e, "Permission denied"@) || contains_seq(e, "Authentication failed"@) {
        Err("Authentication failed: wrong password"@ + refusal_detail(e))
    } else {
        Err("Unexpected output: stdout="@ + trim(stdout) + " stderr="@ + e)
    }
}

pub open spec fn outcome_view(r: Result<(), String>) -> Result<(), Seq<char>> {
    match r {
        Ok(()) => Ok(()),
        Err(e) => Err(e@),
    }
}

/// Decide a key-authentication test from the exit status and the decoded
/// output of the `ssh` run.
pub fn key_test_verdict(success: bool, stdout: &str, stderr: &str) -> (r: Result<(), String>)
    ensures
        outcome_view(r) == key_test_outcome(success, stdout@, stderr@),
{
    let out = chars_of(stdout);
    if success || contains_str(&out, "ok") {
        let t = trim_chars(&out);
        if chars_eq(&t, &chars_of("ok")) {
            Ok(())
        } else {
            let mut m = chars_of("Unexpected output: ");
            extend(&mut m, &t);
            failure_with(&m)
        }
    } else {
        Err(str_of(stderr))
    }
}

/// Decide a password-authentication test from the exit status and the
/// decoded output of the `ssh` run.
pub fn finalize_password_test_result(success: bool, stdout: &str, stderr: &str) -> (r: Result<
    (),
    String,
>)
    ensures
        outcome_view(r) == password_test_outcome(success, stdout@, stderr@),
{
    let out = trim_chars(&chars_of(stdout));
    let err = trim_chars(&chars_of(stderr));
    if success && chars_eq(&out, &chars_of("ok")) {
        Ok(())
    } else if contains_str(&err, "Permission denied") || contains_str(&err, "Authentication failed") {
        let mut m = chars_of("Authentication failed: wrong password");
        if err.len() > 0 {
            extend(&mut m, &chars_of(" ("));
            if err.len() > 200 {
                let snippet = slice_of(&err, 0, 200);
                assert(snippet@ =~= err@.take(200));
                extend(&mut m, &snippet);
                extend(&mut m, &chars_of("...)"));
            } else {
                extend(&mut m, &err);
                extend(&mut m, &chars_of(")"));
            }
        }
        assert(m@ =~= "Authentication failed: wrong password"@ + refusal_detail(err@));
        failure_with(&m)
    } else {
        let mut m = chars_of("Unexpected output: stdout=");
        extend(&mut m, &out);
        extend(&mut m, &chars_of(" stderr="));
        extend(&mut m, &err);
        failure_with(&m)
    }
}

/// Whether a connection test of this authentication kind goes through a
/// password: password and one-key authentication do, key authentication
/// does not.
pub fn uses_password(auth: AuthType) -> (b: bool)
    ensures
        b <==> auth != AuthType::Key,
{
    match auth {
        AuthType::Key => false,
        AuthType::Password | AuthType::OneKey => true,
    }
}

/// The password a password-authentication test needs: `Err` with
/// "Password not provided" exactly when none was given.
pub fn require_password<T>(password: Option<T>) -> (r: Result<T, String>)
    ensures
        r is Ok <==> password is Some,
        r matches Ok(v) ==> password == Some(v),
        r matches Err(e) ==> e@ == "Password not provided"@,
{
    match password {
        Some(p) => Ok(p),
        None => Err(str_of("Password not provided")),
    }
}

/// The options of the terminal command line, before `--`.
pub open spec fn command_line_options(s: ServerModel) -> Seq<Seq<char>> {
    seq![word_ssh()] + ssh_options(s) + forward_args(s.advanced.port_forwards)
}

/// The terminal command line ends with ` -- ` and the escaped destination:
/// every option, port forwards included, comes before `--`, so nothing in
/// the host or user name can be read as an option.
pub proof fn command_line_ends_with_destination(s: ServerModel)
    ensures
        join_space(command_line_args(s).map_values(|w: Seq<char>| shell_escaped(w))) == join_space(
            command_line_options(s).map_values(|w: Seq<char>| shell_escaped(w)),
        ) + " -- "@ + shell_escaped(destination(s)),
{
    let f = |w: Seq<char>| shell_escaped(w);
    let pre = command_line_options(s);
    let all = command_line_args(s);
    let ws = all.map_values(f);
    assert(all =~= pre + seq![word_dashes(), destination(s)]);
    assert(pre.len() >= 1);
    assert("--"@ =~= seq!['-', '-']) by {
        reveal_strlit("--");
        reveal_strlit(" -- ");
    }
    assert(shell_escaped(word_dashes()) == word_dashes()) by {
        reveal_strlit("--");
    }
    assert(ws.drop_last().drop_last() =~= pre.map_values(f));
    assert(ws.drop_last().last() == word_dashes());
    assert(ws.last() == shell_escaped(destination(s)));
    assert(ws.drop_last().len() >= 2);
    assert(join_space(ws) == join_space(ws.drop_last()) + seq![' '] + ws.last());
    assert(join_space(ws.drop_last()) == join_space(pre.map_values(f)) + seq![' '] + word_dashes());
    assert(" -- "@ =~= seq![' '] + word_dashes() + seq![' ']) by {
        reveal_strlit("--");
        reveal_strlit(" -- ");
    }
    assert(join_space(ws) =~= join_space(pre.map_values(f)) + " -- "@ + shell_escaped(destination(s)));
}

/// The plain `ssh` arguments do not depend on the port forwards: forwards
/// only ever reach the terminal command line.
pub proof fn bare_args_ignore_forwards(s: ServerModel, fs: Seq<ForwardModel>)
    ensures
        ssh_args(s) == ssh_args(
            ServerModel { advanced: crate::types::AdvancedModel { port_forwards: fs, ..s.advanced }, ..s },
        ),
        key_test_args(s) == key_test_args(
            ServerModel { advanced: crate::types::AdvancedModel { port_forwards: fs, ..s.advanced }, ..s },
        ),
        password_test_args(s) == password_test_args(
            ServerModel { advanced: crate::types::AdvancedModel { port_forwards: fs, ..s.advanced }, ..s },
        ),
{
}

/// A connection test's argv ends with `--`, the destination and the remote
/// command `echo ok`, after every option.
pub proof fn test_args_end_with_destination(s: ServerModel)
    ensures
        key_test_args(s) == seq![word_ssh()] + ssh_options(s) + key_test_options() + seq![
            word_dashes(),
            destination(s),
            "echo ok"@,
        ],
        password_test_args(s) == ssh_options(s) + password_test_options() + seq![
            word_dashes(),
            destination(s),
            "echo ok"@,
        ],
{
}

} // verus!
