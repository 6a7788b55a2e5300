//! How to reach a remote over SSH: as whom, with which keys in which order,
//! and what to run there.

use vstd::prelude::*;
use vstd::string::*;

use crate::bytes::text;
use crate::git::url::SshTarget;
use crate::path::{RepoPath, joined};

verus! {

/// The user to log in as: the one that the target names, or `git`.
pub open spec fn login_user(user: Option<Seq<char>>) -> Seq<char> {
    match user {
        Some(u) => u,
        None => "git"@,
    }
}

/// The user to log in as.
pub fn session_user(target: &SshTarget) -> (r: String)
    ensures
        r@ == login_user(target@.user),
{
    match &target.user {
        Some(u) => u.clone(),
        None => "git".to_owned(),
    }
}

/// The port to connect to: the one that the target names, or 22.
pub open spec fn login_port(port: Option<u16>) -> u16 {
    match port {
        Some(p) => p,
        None => 22,
    }
}

/// The port to connect to.
pub fn session_port(target: &SshTarget) -> (r: u16)
    ensures
        r == login_port(target@.port),
{
    match target.port {
        Some(p) => p,
        None => 22,
    }
}

/// The command that runs a Git service on a path: the path stands in single
/// quotes.
pub open spec fn command_text(service: Seq<char>, path: Seq<char>) -> Seq<char> {
    service + " '"@ + path + "'"@
}

/// The command that runs a Git service on a path.
pub fn service_command(service: &str, path: &str) -> (r: String)
    ensures
        r@ == command_text(service@, path@),
{
    let mut r: String = service.to_owned();
    r.append(" '");
    r.append(path);
    r.append("'");
    r
}

// ---------------------------------------------------------------------------
// Authentication
// ---------------------------------------------------------------------------

/// A way to prove who one is.
pub enum Attempt {
    /// The key that was asked for.
    Key(String),
    /// The keys that the SSH agent holds.
    Agent,
    /// A key in the usual place, where there is one.
    KeyFile(RepoPath),
}

/// A way to prove who one is.
pub enum AttemptModel {
    Key(Seq<char>),
    Agent,
    KeyFile(Seq<u8>),
}

impl View for Attempt {
    type V = AttemptModel;

    open spec fn view(&self) -> AttemptModel {
        match self {
            Attempt::Key(k) => AttemptModel::Key(k@),
            Attempt::Agent => AttemptModel::Agent,
            Attempt::KeyFile(p) => AttemptModel::KeyFile(p@),
        }
    }
}

/// What a list of attempts is.
pub open spec fn attempt_models(attempts: Seq<Attempt>) -> Seq<AttemptModel> {
    attempts.map_values(|a: Attempt| a@)
}

/// The usual names of key files, in the order in which they are tried.
pub open spec fn key_file_names() -> Seq<Seq<u8>> {
    seq![
        text("id_ed25519"),
        text("id_rsa"),
        text("id_ecdsa"),
        text("id_ecdsa_sk"),
        text("id_ed25519_sk"),
        text("id_dsa"),
    ]
}

/// The key file of this name in the home directory.
pub open spec fn key_file(home: Seq<u8>, name: Seq<u8>) -> Seq<u8> {
    joined(joined(home, text(".ssh")), name)
}

/// The attempts to make, in order: with a key only that one; without, the
/// agent, and the usual key files where the home directory is known.
pub open spec fn attempts_for(key: Option<Seq<char>>, home: Option<Seq<u8>>) -> Seq<AttemptModel> {
    match key {
        Some(k) => seq![AttemptModel::Key(k)],
        None => match home {
            Some(h) => seq![AttemptModel::Agent] + key_file_names().map_values(
                |name: Seq<u8>| AttemptModel::KeyFile(key_file(h, name)),
            ),
            None => seq![AttemptModel::Agent],
        },
    }
}

fn push_key_file(attempts: &mut Vec<Attempt>, home: &str, name: &str)
    ensures
        attempt_models(final(attempts)@) == attempt_models(old(attempts)@).push(
            AttemptModel::KeyFile(key_file(text(home), text(name))),
        ),
{
    let path = RepoPath::new(home).join(".ssh".as_bytes()).join(name.as_bytes());
    let a = Attempt::KeyFile(path);
    let ghost model = a@;
    attempts.push(a);
    assert(attempt_models(attempts@) =~= attempt_models(old(attempts)@).push(model));
}

/// The attempts to make to log in, in order.
pub fn auth_attempts(ssh_key: Option<&str>, home: Option<&str>) -> (r: Vec<Attempt>)
    ensures
        attempt_models(r@) == attempts_for(
            match ssh_key {
                Some(k) => Some(k@),
                None => None,
            },
            match home {
                Some(h) => Some(text(h)),
                None => None,
            },
        ),
{
    let mut r: Vec<Attempt> = Vec::new();
    match ssh_key {
        Some(k) => {
            r.push(Attempt::Key(k.to_owned()));
            assert(attempt_models(r@) =~= seq![AttemptModel::Key(k@)]);
        },
        None => {
            r.push(Attempt::Agent);
            assert(attempt_models(r@) =~= seq![AttemptModel::Agent]);
            if let Some(h) = home {
                push_key_file(&mut r, h, "id_ed25519");
                push_key_file(&mut r, h, "id_rsa");
                push_key_file(&mut r, h, "id_ecdsa");
                push_key_file(&mut r, h, "id_ecdsa_sk");
                push_key_file(&mut r, h, "id_ed25519_sk");
                push_key_file(&mut r, h, "id_dsa");
                assert(attempt_models(r@) =~= seq![AttemptModel::Agent]
                    + key_file_names().map_values(
                    |name: Seq<u8>| AttemptModel::KeyFile(key_file(text(h), name)),
                ));
            }
        },
    }
    r
}

/// What to do next to log in.
#[derive(Clone, Copy, PartialEq, Eq, Structural, Debug)]
pub enum AuthStep {
    /// The remote knows who we are.
    Done,
    /// Make the attempt with this number.
    Try(usize),
    /// No attempt is left.
    Failed,
}

/// What to do after the attempt with number `at`, out of `count`: once one is
/// accepted no other is made, and none is left out before that.
pub open spec fn auth_step(at: usize, count: usize, accepted: bool) -> AuthStep {
    if accepted {
        AuthStep::Done
    } else if at + 1 < count {
        AuthStep::Try((at + 1) as usize)
    } else {
        AuthStep::Failed
    }
}

/// What to do after the attempt with number `at`, out of `count`.
pub fn after_auth(at: usize, count: usize, accepted: bool) -> (r: AuthStep)
    ensures
        r == auth_step(at, count, accepted),
{
    if accepted {
        AuthStep::Done
    } else if count > 0 && at < count - 1 {
        AuthStep::Try(at + 1)
    } else {
        AuthStep::Failed
    }
}

// ---------------------------------------------------------------------------
// The ssh program
// ---------------------------------------------------------------------------

/// The character of a decimal digit.
pub open spec fn digit_char(n: nat) -> char {
    (48 + n) as u8 as char
}

/// The decimal digits of a number.
pub open spec fn decimal_chars(n: nat) -> Seq<char>
    decreases n,
{
    if n < 10 {
        seq![digit_char(n)]
    } else {
        decimal_chars(n / 10).push(digit_char(n % 10))
    }
}

/// What a list of texts is.
pub open spec fn text_views(list: Seq<String>) -> Seq<Seq<char>> {
    list.map_values(|s: String| s@)
}

/// The host as the program takes it, with the user before it where one is
/// named.
pub open spec fn destination(user: Option<Seq<char>>, host: Seq<char>) -> Seq<char> {
    match user {
        Some(u) => u + "@"@ + host,
        None => host,
    }
}

/// The arguments of the `ssh` program that runs a Git service on the target.
pub open spec fn ssh_arguments(
    user: Option<Seq<char>>,
    host: Seq<char>,
    port: Option<u16>,
    path: Seq<char>,
    service: Seq<char>,
    key: Option<Seq<char>>,
) -> Seq<Seq<char>> {
    seq!["-o"@, "StrictHostKeyChecking=no"@, "-o"@, "ConnectTimeout=10"@] + (match port {
        Some(p) => seq!["-p"@, decimal_chars(p as nat)],
        None => Seq::empty(),
    }) + (match key {
        Some(k) => seq!["-i"@, k],
        None => Seq::empty(),
    }) + seq![destination(user, host), command_text(service, path)]
}

fn digit_text(n: u16) -> (r: &'static str)
    requires
        n < 10,
    ensures
        r@ == seq![digit_char(n as nat)],
{
    proof {
        reveal_strlit("0");
        reveal_strlit("1");
        reveal_strlit("2");
        reveal_strlit("3");
        reveal_strlit("4");
        reveal_strlit("5");
        reveal_strlit("6");
        reveal_strlit("7");
        reveal_strlit("8");
        reveal_strlit("9");
    }
    let r = match n {
        0 => "0",
        1 => "1",
        2 => "2",
        3 => "3",
        4 => "4",
        5 => "5",
        6 => "6",
        7 => "7",
        8 => "8",
        _ => "9",
    };
    assert(r@ =~= seq![digit_char(n as nat)]);
    r
}

pub(crate) fn decimal_text(n: u16) -> (r: String)
    ensures
        r@ == decimal_chars(n as nat),
    decreases n,
{
    if n < 10 {
        return digit_text(n).to_owned();
    }
    let mut r = decimal_text(n / 10);
    r.append(digit_text(n % 10));
    assert(r@ =~= decimal_chars(n as nat));
    r
}

fn push_arg(args: &mut Vec<String>, arg: String)
    ensures
        text_views(final(args)@) == text_views(old(args)@).push(arg@),
{
    args.push(arg);
    assert(text_views(args@) =~= text_views(old(args)@).push(arg@));
}

/// The arguments of the `ssh` program that runs a Git service on the target.
pub fn ssh_args(target: &SshTarget, service: &str, ssh_key: Option<&str>) -> (r: Vec<String>)
    ensures
        text_views(r@) == ssh_arguments(
            target@.user,
            target@.host,
            target@.port,
            target@.path,
            service@,
            match ssh_key {
                Some(k) => Some(k@),
                None => None,
            },
        ),
{
    let mut args: Vec<String> = Vec::new();
    push_arg(&mut args, "-o".to_owned());
    push_arg(&mut args, "StrictHostKeyChecking=no".to_owned());
    push_arg(&mut args, "-o".to_owned());
    push_arg(&mut args, "ConnectTimeout=10".to_owned());
    if let Some(p) = target.port {
        push_arg(&mut args, "-p".to_owned());
        push_arg(&mut args, decimal_text(p));
    }
    if let Some(k) = ssh_key {
        push_arg(&mut args, "-i".to_owned());
        push_arg(&mut args, k.to_owned());
    }
    let mut place: String = String::new();
    if let Some(u) = &target.user {
        place.append(u.as_str());
        place.append("@");
    }
    place.append(target.host.as_str());
    assert(place@ =~= destination(target@.user, target@.host));
    push_arg(&mut args, place);
    push_arg(&mut args, service_command(service, target.path.as_str()));
    assert(text_views(args@) =~= ssh_arguments(
        target@.user,
        target@.host,
        target@.port,
        target@.path,
        service@,
        match ssh_key {
            Some(k) => Some(k@),
            None => None,
        },
    ));
    args
}

} // verus!
