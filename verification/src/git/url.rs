//! Where a remote is: `ssh://` URLs and the `[user@]host:path` form.

use vstd::prelude::*;
use vstd::string::*;

verus! {

/// Why a URL does not say where a remote is.
#[derive(Clone, Copy, PartialEq, Eq, Structural, Debug)]
pub enum UrlError {
    /// The port is not a number up to 65535.
    InvalidPort,
    /// There is no colon behind the host.
    NoColon,
    /// It is neither an `ssh://` URL nor of the form `[user@]host:path`.
    NotSsh,
}

/// Where a remote is.
pub struct SshTarget {
    pub user: Option<String>,
    pub host: String,
    pub port: Option<u16>,
    pub path: String,
}

/// Where a remote is.
#[verifier::ext_equal]
pub struct TargetText {
    pub user: Option<Seq<char>>,
    pub host: Seq<char>,
    pub port: Option<u16>,
    pub path: Seq<char>,
}

impl View for SshTarget {
    type V = TargetText;

    open spec fn view(&self) -> TargetText {
        TargetText {
            user: match self.user {
                Some(u) => Some(u@),
                None => None,
            },
            host: self.host@,
            port: self.port,
            path: self.path@,
        }
    }
}

/// Where `c` stands first in `s`.
pub open spec fn first_char(s: Seq<char>, c: char) -> Option<int>
    decreases s.len(),
{
    if s.len() == 0 {
        None
    } else if s[0] == c {
        Some(0)
    } else {
        match first_char(s.drop_first(), c) {
            Some(i) => Some(i + 1),
            None => None,
        }
    }
}

/// Where `c` stands last in `s`.
pub open spec fn last_char(s: Seq<char>, c: char) -> Option<int>
    decreases s.len(),
{
    if s.len() == 0 {
        None
    } else if s.last() == c {
        Some(s.len() - 1)
    } else {
        last_char(s.drop_last(), c)
    }
}

/// The parts of `s` before and behind the first `c`, where there is one.
pub open spec fn split_at_char(s: Seq<char>, c: char) -> Option<(Seq<char>, Seq<char>)> {
    match first_char(s, c) {
        Some(i) => Some((s.take(i), s.skip(i + 1))),
        None => None,
    }
}

/// The number that decimal digits stand for.
pub open spec fn digits_number(s: Seq<char>) -> Option<nat>
    decreases s.len(),
{
    if s.len() == 0 {
        Some(0)
    } else {
        match digits_number(s.drop_last()) {
            Some(high) => if '0' <= s.last() <= '9' {
                Some((10 * high + (s.last() as int - '0' as int)) as nat)
            } else {
                None
            },
            None => None,
        }
    }
}

/// The number up to 65535 that `s` is: one or more digits, before which a plus
/// sign may stand.
pub open spec fn port_number(s: Seq<char>) -> Option<u16> {
    let digits = if s.len() > 1 && s[0] == '+' {
        s.drop_first()
    } else {
        s
    };
    match digits_number(digits) {
        Some(n) => if digits.len() > 0 && n <= 65535 {
            Some(n as u16)
        } else {
            None
        },
        None => None,
    }
}

/// A path that begins with `/`, put there where it is missing.
pub open spec fn rooted(path: Seq<char>) -> Seq<char> {
    if path.len() > 0 && path[0] == '/' {
        path
    } else {
        seq!['/'] + path
    }
}

/// The text itself, unless it is empty.
pub open spec fn unless_empty(s: Seq<char>) -> Option<Seq<char>> {
    if s.len() == 0 {
        None
    } else {
        Some(s)
    }
}

/// What the part of an `ssh://` URL behind its scheme names:
/// `[user@]host[:port]/path`.
pub open spec fn authority_target(rest: Seq<char>) -> Result<TargetText, UrlError> {
    let (place, path) = match split_at_char(rest, '/') {
        Some(parts) => parts,
        None => (rest, Seq::empty()),
    };
    let (user, address) = match split_at_char(place, '@') {
        Some(parts) => parts,
        None => (Seq::empty(), place),
    };
    let (host, port) = match split_at_char(address, ':') {
        Some(parts) => parts,
        None => (address, Seq::empty()),
    };
    if port.len() > 0 && port_number(port) is None {
        Err(UrlError::InvalidPort)
    } else {
        Ok(
            TargetText {
                user: unless_empty(user),
                host,
                port: if port.len() > 0 {
                    port_number(port)
                } else {
                    None
                },
                path: seq!['/'] + path,
            },
        )
    }
}

/// What a URL names. One without a scheme has its user before the last `@`,
/// and its path behind the first colon after that.
pub open spec fn url_target(url: Seq<char>) -> Result<TargetText, UrlError> {
    if url.len() >= 6 && url.take(6) == "ssh://"@ {
        authority_target(url.skip(6))
    } else {
        match last_char(url, '@') {
            Some(at) => match split_at_char(url.skip(at + 1), ':') {
                Some((host, path)) => Ok(
                    TargetText {
                        user: unless_empty(url.take(at)),
                        host,
                        port: None,
                        path: rooted(path),
                    },
                ),
                None => Err(UrlError::NoColon),
            },
            None => match split_at_char(url, ':') {
                Some((host, path)) => Ok(
                    TargetText { user: None, host, port: None, path: rooted(path) },
                ),
                None => Err(UrlError::NotSsh),
            },
        }
    }
}

fn find_char(s: &str, c: char) -> (r: Option<usize>)
    ensures
        match r {
            Some(i) => first_char(s@, c) == Some(i as int) && i < s@.len(),
            None => first_char(s@, c) is None,
        },
{
    let n: usize = s.unicode_len();
    let mut i: usize = 0;
    assert(s@.skip(0) =~= s@);
    while i < n
        invariant
            i <= n == s@.len(),
            first_char(s@, c) == match first_char(s@.skip(i as int), c) {
                Some(k) => Some(k + i),
                None => None,
            },
        decreases n - i,
    {
        assert(s@.skip(i as int)[0] == s@[i as int]);
        if s.get_char(i) == c {
            return Some(i);
        }
        assert(s@.skip(i as int).drop_first() =~= s@.skip(i + 1));
        i += 1;
    }
    None
}

fn find_last_char(s: &str, c: char) -> (r: Option<usize>)
    ensures
        match r {
            Some(i) => last_char(s@, c) == Some(i as int) && i < s@.len(),
            None => last_char(s@, c) is None,
        },
{
    let mut n: usize = s.unicode_len();
    assert(s@.take(n as int) =~= s@);
    while n > 0
        invariant
            n <= s@.len(),
            last_char(s@, c) == last_char(s@.take(n as int), c),
        decreases n,
    {
        assert(s@.take(n as int).last() == s@[n - 1]);
        if s.get_char(n - 1) == c {
            return Some(n - 1);
        }
        assert(s@.take(n as int).drop_last() =~= s@.take(n - 1));
        n -= 1;
    }
    None
}

/// The parts before and behind the first `c`, or where there is none the
/// whole, and nothing.
fn split_once(s: &str, c: char) -> (r: Option<(String, String)>)
    ensures
        match r {
            Some((a, b)) => split_at_char(s@, c) == Some((a@, b@)),
            None => split_at_char(s@, c) is None,
        },
{
    match find_char(s, c) {
        Some(i) => {
            let n: usize = s.unicode_len();
            assert(s@.subrange(0, i as int) =~= s@.take(i as int));
            assert(s@.subrange(i + 1, n as int) =~= s@.skip(i + 1));
            Some((s.substring_char(0, i).to_owned(), s.substring_char(i + 1, n).to_owned()))
        },
        None => None,
    }
}

fn parse_port(s: &str) -> (r: Option<u16>)
    ensures
        r == port_number(s@),
{
    let n: usize = s.unicode_len();
    let mut i: usize = 0;
    if n > 1 && s.get_char(0) == '+' {
        i = 1;
    }
    let ghost first = i as int;
    let ghost digits = s@.skip(first);
    assert(s@.skip(0) =~= s@);
    assert(s@.skip(1) =~= s@.drop_first());
    if i == n {
        return None;
    }
    let mut value: u32 = 0;
    assert(digits.take(0) =~= Seq::empty());
    while i < n
        invariant
            0 <= first <= i <= n == s@.len(),
            first < n,
            digits == s@.skip(first),
            digits_number(digits.take(i - first)) == Some(value as nat),
            value <= 65535,
            port_number(s@) == match digits_number(digits) {
                Some(v) => if v <= 65535 {
                    Some(v as u16)
                } else {
                    None
                },
                None => None,
            },
        decreases n - i,
    {
        let ghost k = i - first;
        assert(digits.take(k + 1).drop_last() =~= digits.take(k));
        assert(digits.take(k + 1).last() == s@[i as int]);
        let c = s.get_char(i);
        if c < '0' || c > '9' {
            proof {
                lemma_digits_prefix(digits, k + 1);
            }
            return None;
        }
        value = 10 * value + (c as u32 - '0' as u32);
        if value > 65535 {
            proof {
                lemma_digits_prefix(digits, k + 1);
            }
            return None;
        }
        i += 1;
    }
    assert(digits.take(i - first) =~= digits);
    Some(value as u16)
}

/// What the first digits say of the number: it is one only if they are, and no
/// smaller.
proof fn lemma_digits_prefix(s: Seq<char>, k: int)
    requires
        0 <= k <= s.len(),
    ensures
        digits_number(s) matches Some(n) ==> (digits_number(s.take(k)) matches Some(m) && m <= n),
    decreases s.len(),
{
    if k == s.len() {
        assert(s.take(k) =~= s);
    } else {
        lemma_digits_prefix(s.drop_last(), k);
        assert(s.drop_last().take(k) =~= s.take(k));
    }
}

fn root_path(path: &str) -> (r: String)
    ensures
        r@ == rooted(path@),
{
    if path.unicode_len() > 0 && path.get_char(0) == '/' {
        return path.to_owned();
    }
    put_slash(path)
}

fn put_slash(path: &str) -> (r: String)
    ensures
        r@ == seq!['/'] + path@,
{
    let mut r: String = "/".to_owned();
    r.append(path);
    proof {
        reveal_strlit("/");
        assert("/"@ =~= seq!['/']);
    }
    r
}

fn some_unless_empty(s: String) -> (r: Option<String>)
    ensures
        match r {
            Some(t) => unless_empty(s@) == Some(t@),
            None => unless_empty(s@) is None,
        },
{
    if s.as_str().unicode_len() == 0 {
        None
    } else {
        Some(s)
    }
}

fn parse_authority(rest: &str) -> (r: Result<SshTarget, UrlError>)
    ensures
        match r {
            Ok(t) => authority_target(rest@) == Ok::<TargetText, UrlError>(t@),
            Err(e) => authority_target(rest@) == Err::<TargetText, UrlError>(e),
        },
{
    proof {
        reveal_strlit("");
        assert(""@ =~= Seq::empty());
    }
    let (place, path): (String, String) = match split_once(rest, '/') {
        Some(parts) => parts,
        None => (rest.to_owned(), "".to_owned()),
    };
    let (user, address): (String, String) = match split_once(place.as_str(), '@') {
        Some(parts) => parts,
        None => ("".to_owned(), place),
    };
    let (host, port_text): (String, String) = match split_once(address.as_str(), ':') {
        Some(parts) => parts,
        None => (address, "".to_owned()),
    };
    let port: Option<u16> = if port_text.as_str().unicode_len() == 0 {
        None
    } else {
        match parse_port(port_text.as_str()) {
            Some(p) => Some(p),
            None => {
                return Err(UrlError::InvalidPort);
            },
        }
    };
    Ok(SshTarget { user: some_unless_empty(user), host, port, path: put_slash(path.as_str()) })
}

/// What a URL names: `ssh://[user@]host[:port]/path`, or `[user@]host:path`.
pub fn parse_ssh_url(url: &str) -> (r: Result<SshTarget, UrlError>)
    ensures
        match r {
            Ok(t) => url_target(url@) == Ok::<TargetText, UrlError>(t@),
            Err(e) => url_target(url@) == Err::<TargetText, UrlError>(e),
        },
{
    let n: usize = url.unicode_len();
    if n >= 6 && is_scheme(url) {
        assert(url@.subrange(6, n as int) =~= url@.skip(6));
        return parse_authority(url.substring_char(6, n));
    }
    match find_last_char(url, '@') {
        Some(at) => {
            assert(url@.subrange(0, at as int) =~= url@.take(at as int));
            assert(url@.subrange(at + 1, n as int) =~= url@.skip(at + 1));
            let user = some_unless_empty(url.substring_char(0, at).to_owned());
            match split_once(url.substring_char(at + 1, n), ':') {
                Some((host, path)) => Ok(
                    SshTarget { user, host, port: None, path: root_path(path.as_str()) },
                ),
                None => Err(UrlError::NoColon),
            }
        },
        None => match split_once(url, ':') {
            Some((host, path)) => Ok(
                SshTarget { user: None, host, port: None, path: root_path(path.as_str()) },
            ),
            None => Err(UrlError::NotSsh),
        },
    }
}

fn is_scheme(url: &str) -> (r: bool)
    requires
        url@.len() >= 6,
    ensures
        r == (url@.take(6) == "ssh://"@),
{
    proof {
        reveal_strlit("ssh://");
    }
    let r = url.get_char(0) == 's' && url.get_char(1) == 's' && url.get_char(2) == 'h'
        && url.get_char(3) == ':' && url.get_char(4) == '/' && url.get_char(5) == '/';
    proof {
        let p = url@.take(6);
        if r {
            assert(p =~= "ssh://"@);
        } else {
            assert(p[0] == url@[0] && p[1] == url@[1] && p[2] == url@[2] && p[3] == url@[3]
                && p[4] == url@[4] && p[5] == url@[5]);
        }
    }
    r
}

} // verus!
