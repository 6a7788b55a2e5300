//! How a remote is reached: what a URL names, as whom and with what one logs
//! in, and how often a change is tried.

use vstd::prelude::*;

use crate::bytes::text;
use crate::cli::{address_of, author_of, first_of};
use crate::git::repo::{PushStep, push_step};
use crate::git::session::{
    AttemptModel, AuthStep, attempts_for, auth_step, decimal_chars, digit_char, login_port,
    login_user, ssh_arguments,
};
use crate::git::url::{
    TargetText, UrlError, digits_number, first_char, last_char, port_number, split_at_char,
    url_target,
};

verus! {

// ---------------------------------------------------------------------------
// URLs
// ---------------------------------------------------------------------------

/// The character stands nowhere in the text.
pub open spec fn lacks(s: Seq<char>, c: char) -> bool {
    forall|i: int| 0 <= i < s.len() ==> #[trigger] s[i] != c
}

/// A path that begins with a slash is that of the remote; one that does not is
/// taken from the root on.
pub open spec fn from_root(path: Seq<char>) -> Seq<char> {
    if path.len() > 0 && path[0] == '/' {
        path
    } else {
        seq!['/'] + path
    }
}

proof fn lemma_split(a: Seq<char>, c: char, b: Seq<char>)
    requires
        lacks(a, c),
    ensures
        split_at_char(a + seq![c] + b, c) == Some((a, b)),
{
    let s = a + seq![c] + b;
    lemma_first(a, c, b);
    assert(s.take(a.len() as int) =~= a);
    assert(s.skip(a.len() + 1int) =~= b);
}

proof fn lemma_first(a: Seq<char>, c: char, b: Seq<char>)
    requires
        lacks(a, c),
    ensures
        first_char(a + seq![c] + b, c) == Some(a.len() as int),
    decreases a.len(),
{
    let s = a + seq![c] + b;
    if a.len() > 0 {
        let rest = a.drop_first();
        assert forall|i: int| 0 <= i < rest.len() implies #[trigger] rest[i] != c by {
            assert(rest[i] == a[i + 1]);
        }
        lemma_first(rest, c, b);
        assert(s.drop_first() =~= rest + seq![c] + b);
        assert(s[0] == a[0]);
    } else {
        assert(s[0] == c);
    }
}

proof fn lemma_no_first(s: Seq<char>, c: char)
    requires
        lacks(s, c),
    ensures
        first_char(s, c) is None,
    decreases s.len(),
{
    if s.len() > 0 {
        let rest = s.drop_first();
        assert forall|i: int| 0 <= i < rest.len() implies #[trigger] rest[i] != c by {
            assert(rest[i] == s[i + 1]);
        }
        lemma_no_first(rest, c);
        assert(s[0] != c);
    }
}

proof fn lemma_last(a: Seq<char>, c: char, b: Seq<char>)
    requires
        lacks(b, c),
    ensures
        last_char(a + seq![c] + b, c) == Some(a.len() as int),
    decreases b.len(),
{
    let s = a + seq![c] + b;
    if b.len() > 0 {
        let front = b.drop_last();
        assert forall|i: int| 0 <= i < front.len() implies #[trigger] front[i] != c by {
            assert(front[i] == b[i]);
        }
        lemma_last(a, c, front);
        assert(s.drop_last() =~= a + seq![c] + front);
        assert(s.last() == b[b.len() - 1]);
    } else {
        assert(s.last() == c);
    }
}

proof fn lemma_no_last(s: Seq<char>, c: char)
    requires
        lacks(s, c),
    ensures
        last_char(s, c) is None,
    decreases s.len(),
{
    if s.len() > 0 {
        let front = s.drop_last();
        assert forall|i: int| 0 <= i < front.len() implies #[trigger] front[i] != c by {
            assert(front[i] == s[i]);
        }
        lemma_no_last(front, c);
        assert(s[s.len() - 1] != c);
    }
}

/// The text is an `ssh://` URL.
pub open spec fn has_scheme(url: Seq<char>) -> bool {
    url.len() >= 6 && url.take(6) == "ssh://"@
}

/// `user@host:path` names just these, and no port.
pub proof fn lemma_short_form(user: Seq<char>, host: Seq<char>, path: Seq<char>)
    requires
        user.len() > 0,
        lacks(host, '@'),
        lacks(host, ':'),
        lacks(path, '@'),
        !has_scheme(user + seq!['@'] + host + seq![':'] + path),
    ensures
        url_target(user + seq!['@'] + host + seq![':'] + path) == Ok::<TargetText, UrlError>(
            TargetText { user: Some(user), host, port: None, path: from_root(path) },
        ),
{
    let url = user + seq!['@'] + host + seq![':'] + path;
    let rest = host + seq![':'] + path;
    assert(url =~= user + seq!['@'] + rest);
    lemma_last(user, '@', rest);
    assert(url.skip(user.len() + 1int) =~= rest);
    assert(url.take(user.len() as int) =~= user);
    lemma_split(host, ':', path);
}

/// `host:path` names just these, and no user.
pub proof fn lemma_short_form_without_user(host: Seq<char>, path: Seq<char>)
    requires
        lacks(host, '@'),
        lacks(host, ':'),
        lacks(path, '@'),
        !has_scheme(host + seq![':'] + path),
    ensures
        url_target(host + seq![':'] + path) == Ok::<TargetText, UrlError>(
            TargetText { user: None, host, port: None, path: from_root(path) },
        ),
{
    let url = host + seq![':'] + path;
    lemma_no_last(url, '@');
    lemma_split(host, ':', path);
}

/// What is told of who and where in an `ssh://` URL.
pub open spec fn authority(user: Option<Seq<char>>, host: Seq<char>, port: Option<u16>) -> Seq<char> {
    (match user {
        Some(u) => u + seq!['@'],
        None => Seq::empty(),
    }) + host + (match port {
        Some(p) => seq![':'] + decimal_chars(p as nat),
        None => Seq::empty(),
    })
}

/// `ssh://[user@]host[:port]/path` names just these.
pub proof fn lemma_long_form(
    user: Option<Seq<char>>,
    host: Seq<char>,
    port: Option<u16>,
    path: Seq<char>,
)
    requires
        user matches Some(u) ==> u.len() > 0 && lacks(u, '@') && lacks(u, '/'),
        lacks(host, '@'),
        lacks(host, ':'),
        lacks(host, '/'),
    ensures
        url_target("ssh://"@ + authority(user, host, port) + seq!['/'] + path) == Ok::<
            TargetText,
            UrlError,
        >(TargetText { user, host, port, path: seq!['/'] + path }),
{
    reveal_strlit("ssh://");
    let place = authority(user, host, port);
    let rest = place + seq!['/'] + path;
    let url = "ssh://"@ + authority(user, host, port) + seq!['/'] + path;
    assert(url.take(6) =~= "ssh://"@);
    assert(url.skip(6) =~= rest);
    let address = host + (match port {
        Some(p) => seq![':'] + decimal_chars(p as nat),
        None => Seq::empty(),
    });
    match port {
        Some(p) => {
            lemma_port_read_back(p);
            lemma_split(host, ':', decimal_chars(p as nat));
            assert(address =~= host + seq![':'] + decimal_chars(p as nat));
            lemma_digits_only(p as nat);
        },
        None => {
            assert(address =~= host);
            lemma_no_first(host, ':');
        },
    }
    assert(lacks(address, '@') && lacks(address, '/'));
    assert(lacks(place, '/'));
    lemma_split(place, '/', path);
    match user {
        Some(u) => {
            assert(place =~= u + seq!['@'] + address);
            lemma_split(u, '@', address);
        },
        None => {
            assert(place =~= address);
            lemma_no_first(address, '@');
        },
    }
}

proof fn lemma_digits_only(n: nat)
    requires
        n <= 65535,
    ensures
        decimal_chars(n).len() > 0,
        forall|i: int|
            0 <= i < decimal_chars(n).len() ==> '0' <= #[trigger] decimal_chars(n)[i] <= '9',
    decreases n,
{
    let s = decimal_chars(n);
    if n >= 10 {
        lemma_digits_only(n / 10);
        assert forall|i: int| 0 <= i < s.len() implies '0' <= #[trigger] s[i] <= '9' by {
            if i < decimal_chars(n / 10).len() {
                assert(s[i] == decimal_chars(n / 10)[i]);
            } else {
                assert(s[i] == digit_char(n % 10));
            }
        }
    } else {
        assert(s[0] == digit_char(n));
    }
}

proof fn lemma_number_read_back(n: nat)
    requires
        n <= 65535,
    ensures
        digits_number(decimal_chars(n)) == Some(n),
    decreases n,
{
    let s = decimal_chars(n);
    if n >= 10 {
        lemma_number_read_back(n / 10);
        assert(s.drop_last() =~= decimal_chars(n / 10));
        assert(s.last() == digit_char(n % 10));
    } else {
        assert(s.drop_last() =~= Seq::empty());
        assert(digits_number(Seq::<char>::empty()) == Some(0nat));
        assert(s.last() == digit_char(n));
    }
}

/// A port is read back from its digits.
pub proof fn lemma_port_read_back(port: u16)
    ensures
        port_number(decimal_chars(port as nat)) == Some(port),
{
    lemma_number_read_back(port as nat);
    lemma_digits_only(port as nat);
    assert(decimal_chars(port as nat)[0] != '+');
}

/// A URL whose port is no number is refused.
pub proof fn lemma_port_is_a_number(host: Seq<char>, port: Seq<char>, path: Seq<char>, i: int)
    requires
        lacks(host, '@'),
        lacks(host, ':'),
        lacks(host, '/'),
        lacks(port, '@'),
        lacks(port, '/'),
        0 <= i < port.len(),
        !('0' <= port[i] <= '9'),
        i > 0 || port[i] != '+',
    ensures
        url_target("ssh://"@ + host + seq![':'] + port + seq!['/'] + path) == Err::<
            TargetText,
            UrlError,
        >(UrlError::InvalidPort),
{
    reveal_strlit("ssh://");
    let place = host + seq![':'] + port;
    let url = "ssh://"@ + host + seq![':'] + port + seq!['/'] + path;
    assert(url.take(6) =~= "ssh://"@);
    assert(url.skip(6) =~= place + seq!['/'] + path);
    lemma_split(place, '/', path);
    lemma_no_first(place, '@');
    lemma_split(host, ':', port);
    let digits = if port.len() > 1 && port[0] == '+' {
        port.drop_first()
    } else {
        port
    };
    if port.len() > 1 && port[0] == '+' {
        assert(digits[i - 1] == port[i]);
        lemma_no_digit(digits, i - 1);
    } else {
        lemma_no_digit(digits, i);
    }
}

proof fn lemma_no_digit(s: Seq<char>, i: int)
    requires
        0 <= i < s.len(),
        !('0' <= s[i] <= '9'),
    ensures
        digits_number(s) is None,
    decreases s.len(),
{
    if i < s.len() - 1 {
        assert(s.drop_last()[i] == s[i]);
        lemma_no_digit(s.drop_last(), i);
    }
}

/// What has neither form is refused.
pub proof fn lemma_no_form(url: Seq<char>, user: Seq<char>, host: Seq<char>)
    requires
        lacks(url, '@'),
        lacks(url, ':'),
        lacks(host, '@'),
        lacks(host, ':'),
        !has_scheme(url),
        !has_scheme(user + seq!['@'] + host),
    ensures
        url_target(url) == Err::<TargetText, UrlError>(UrlError::NotSsh),
        url_target(user + seq!['@'] + host) == Err::<TargetText, UrlError>(UrlError::NoColon),
{
    lemma_no_last(url, '@');
    lemma_no_first(url, ':');
    lemma_last(user, '@', host);
    assert((user + seq!['@'] + host).skip(user.len() + 1int) =~= host);
    lemma_no_first(host, ':');
}

// ---------------------------------------------------------------------------
// Logging in
// ---------------------------------------------------------------------------

/// One logs in as whom the URL names, or as `git`; on the port that it names,
/// or on 22.
pub proof fn lemma_login(user: Seq<char>, port: u16)
    ensures
        login_user(Some(user)) == user,
        login_user(None) == "git"@,
        login_port(Some(port)) == port,
        login_port(None) == 22,
{
}

/// A key that was asked for is the only one that is tried. Without one the
/// agent is asked first.
pub proof fn lemma_key_or_agent(key: Seq<char>, home: Option<Seq<u8>>)
    ensures
        attempts_for(Some(key), home) == seq![AttemptModel::Key(key)],
        attempts_for(None, home).len() > 0,
        attempts_for(None, home)[0] is Agent,
        attempts_for(None, None).len() == 1,
{
}

/// Behind the agent come the six usual key files of the home directory, in
/// their order.
pub proof fn lemma_usual_keys(home: Seq<u8>)
    requires
        home.len() > 0,
        home.last() != 47,
    ensures
        ({
            let ways = attempts_for(None, Some(home));
            let dir = home + seq![47u8] + text(".ssh") + seq![47u8];
            &&& ways.len() == 7
            &&& ways[1] == AttemptModel::KeyFile(dir + text("id_ed25519"))
            &&& ways[2] == AttemptModel::KeyFile(dir + text("id_rsa"))
            &&& ways[3] == AttemptModel::KeyFile(dir + text("id_ecdsa"))
            &&& ways[4] == AttemptModel::KeyFile(dir + text("id_ecdsa_sk"))
            &&& ways[5] == AttemptModel::KeyFile(dir + text("id_ed25519_sk"))
            &&& ways[6] == AttemptModel::KeyFile(dir + text("id_dsa"))
        }),
{
    lemma_key_names();
    let ways = attempts_for(None, Some(home));
    let dir = home + seq![47u8] + text(".ssh");
    assert(crate::path::joined(home, text(".ssh")) == dir);
    assert(dir.last() == text(".ssh").last());
    assert(ways[1] == AttemptModel::KeyFile(dir + seq![47u8] + text("id_ed25519")));
    assert(ways[2] == AttemptModel::KeyFile(dir + seq![47u8] + text("id_rsa")));
    assert(ways[3] == AttemptModel::KeyFile(dir + seq![47u8] + text("id_ecdsa")));
    assert(ways[4] == AttemptModel::KeyFile(dir + seq![47u8] + text("id_ecdsa_sk")));
    assert(ways[5] == AttemptModel::KeyFile(dir + seq![47u8] + text("id_ed25519_sk")));
    assert(ways[6] == AttemptModel::KeyFile(dir + seq![47u8] + text("id_dsa")));
}

proof fn lemma_key_names()
    ensures
        text(".ssh").len() == 4 && text(".ssh")[0] == 46 && text(".ssh").last() == 104,
        text("id_ed25519").len() > 0 && text("id_ed25519")[0] == 105,
        text("id_rsa").len() > 0 && text("id_rsa")[0] == 105,
        text("id_ecdsa").len() > 0 && text("id_ecdsa")[0] == 105,
        text("id_ecdsa_sk").len() > 0 && text("id_ecdsa_sk")[0] == 105,
        text("id_ed25519_sk").len() > 0 && text("id_ed25519_sk")[0] == 105,
        text("id_dsa").len() > 0 && text("id_dsa")[0] == 105,
{
    reveal_strlit(".ssh");
    vstd::utf8::is_ascii_chars_encode_utf8(".ssh"@);
    reveal_strlit("id_ed25519");
    vstd::utf8::is_ascii_chars_encode_utf8("id_ed25519"@);
    reveal_strlit("id_rsa");
    vstd::utf8::is_ascii_chars_encode_utf8("id_rsa"@);
    reveal_strlit("id_ecdsa");
    vstd::utf8::is_ascii_chars_encode_utf8("id_ecdsa"@);
    reveal_strlit("id_ecdsa_sk");
    vstd::utf8::is_ascii_chars_encode_utf8("id_ecdsa_sk"@);
    reveal_strlit("id_ed25519_sk");
    vstd::utf8::is_ascii_chars_encode_utf8("id_ed25519_sk"@);
    reveal_strlit("id_dsa");
    vstd::utf8::is_ascii_chars_encode_utf8("id_dsa"@);
}

/// Ways to log in are tried in turn until one is accepted, and none is passed
/// over.
pub proof fn lemma_ways_in_turn(at: usize, count: usize)
    requires
        at < count,
    ensures
        auth_step(at, count, true) == AuthStep::Done,
        at + 1 < count ==> auth_step(at, count, false) == AuthStep::Try((at + 1) as usize),
        at + 1 == count ==> auth_step(at, count, false) == AuthStep::Failed,
{
}

/// What is run at the remote is the service, with the path in single quotes,
/// and the `ssh` program is told where, as whom, on which port and with which
/// key.
pub proof fn lemma_ssh_is_told(
    user: Option<Seq<char>>,
    host: Seq<char>,
    port: Option<u16>,
    path: Seq<char>,
    service: Seq<char>,
    key: Option<Seq<char>>,
)
    ensures
        ({
            let args = ssh_arguments(user, host, port, path, service, key);
            let n = args.len() as int;
            &&& n >= 6
            &&& args[n - 1] == service + " '"@ + path + "'"@
            &&& args[n - 2] == match user {
                Some(u) => u + "@"@ + host,
                None => host,
            }
            &&& port matches Some(p) ==> n >= 8 && args[4] == "-p"@ && args[5] == decimal_chars(
                p as nat,
            )
            &&& key matches Some(k) ==> args[n - 4] == "-i"@ && args[n - 3] == k
            &&& n == 6 + (if port is Some {
                2int
            } else {
                0
            }) + (if key is Some {
                2int
            } else {
                0
            })
        }),
{
}

// ---------------------------------------------------------------------------
// Attempts and authors
// ---------------------------------------------------------------------------

/// A change is tried three times at most, each time on top of what is there
/// then; once it is taken it is not tried again.
pub proof fn lemma_change_is_tried(attempt: u32)
    ensures
        push_step(attempt, true) == PushStep::Done,
        attempt == 1 ==> push_step(attempt, false) == PushStep::Again(2),
        attempt == 2 ==> push_step(attempt, false) == PushStep::Again(3),
        attempt >= 3 ==> push_step(attempt, false) == PushStep::GiveUp,
{
}

/// What was asked for comes before what is in the environment, and that before
/// the default.
pub proof fn lemma_first_of(
    a: Seq<char>,
    b: Option<Seq<char>>,
    c: Option<Seq<char>>,
    fallback: Seq<char>,
)
    ensures
        first_of(Some(a), b, c, fallback) == a,
        first_of(None, Some(a), c, fallback) == a,
        first_of(None, None, Some(a), fallback) == a,
        first_of(None, None, None, fallback) == fallback,
{
}

/// Commits are made by whom the settings name, or else the environment, first
/// as an author and next as a user, or else by `davgit`; and from the address
/// in the settings, or else in the environment, or else the name at
/// `localhost`.
pub proof fn lemma_author(
    a: Seq<char>,
    name: Option<Seq<char>>,
    author: Option<Seq<char>>,
    user: Option<Seq<char>>,
    email: Option<Seq<char>>,
    author_email: Option<Seq<char>>,
)
    ensures
        author_of(Some(a), author, user, email, author_email).0 == a,
        author_of(None, Some(a), user, email, author_email).0 == a,
        author_of(None, None, Some(a), email, author_email).0 == a,
        author_of(None, None, None, email, author_email).0 == "davgit"@,
        author_of(name, author, user, Some(a), author_email).1 == a,
        author_of(name, author, user, None, Some(a)).1 == a,
        author_of(name, author, user, None, None).1 == author_of(
            name,
            author,
            user,
            None,
            None,
        ).0 + "@localhost"@,
{
}

/// The address to serve on is the one given, with the port behind a colon in
/// decimal digits.
pub proof fn lemma_address(bind: Seq<char>, port: u16)
    ensures
        ({
            let at = address_of(bind, port);
            let n = bind.len() as int;
            &&& at.take(n) == bind
            &&& at[n] == ':'
            &&& port_number(at.skip(n + 1)) == Some(port)
        }),
{
    let at = address_of(bind, port);
    let n = bind.len() as int;
    reveal_strlit(":");
    lemma_port_read_back(port);
    assert(at.take(n) =~= bind);
    assert(at.skip(n + 1) =~= decimal_chars(port as nat));
}

} // verus!
