//! The settings of the program, and what they default to.

use vstd::prelude::*;
use vstd::string::*;

use crate::git::session::{decimal_chars, decimal_text};

verus! {

/// The settings of the program.
pub struct Args {
    /// Where the repository is.
    pub remote_url: String,
    /// The branch to serve.
    pub branch: String,
    /// The port to serve on.
    pub port: u16,
    /// The address to serve on.
    pub bind: String,
    /// Who makes commits.
    pub author_name: Option<String>,
    /// The address of who makes commits.
    pub author_email: Option<String>,
    /// The file with the key to log in with.
    pub ssh_key: Option<String>,
    /// The password to log in with.
    pub password: Option<String>,
}

impl Args {
    /// The settings of which only the repository is given.
    pub fn new(remote_url: &str) -> (r: Args)
        ensures
            r.remote_url@ == remote_url@,
            r.branch@ == "main"@,
            r.port == 8080,
            r.bind@ == "127.0.0.1"@,
            r.author_name is None,
            r.author_email is None,
            r.ssh_key is None,
            r.password is None,
    {
        Args {
            remote_url: remote_url.to_owned(),
            branch: "main".to_owned(),
            port: 8080,
            bind: "127.0.0.1".to_owned(),
            author_name: None,
            author_email: None,
            ssh_key: None,
            password: None,
        }
    }

    /// The address and the port to serve on.
    pub fn address(&self) -> (r: String)
        ensures
            r@ == address_of(self.bind@, self.port),
    {
        let mut r: String = self.bind.clone();
        r.append(":");
        r.append(decimal_text(self.port).as_str());
        r
    }
}

/// An address, and a port behind a colon.
pub open spec fn address_of(bind: Seq<char>, port: u16) -> Seq<char> {
    bind + ":"@ + decimal_chars(port as nat)
}

/// The first of these texts that is there, or else the last.
pub open spec fn first_of(
    a: Option<Seq<char>>,
    b: Option<Seq<char>>,
    c: Option<Seq<char>>,
    fallback: Seq<char>,
) -> Seq<char> {
    match a {
        Some(x) => x,
        None => match b {
            Some(x) => x,
            None => match c {
                Some(x) => x,
                None => fallback,
            },
        },
    }
}

/// The text that may be absent.
pub open spec fn maybe(s: Option<String>) -> Option<Seq<char>> {
    match s {
        Some(x) => Some(x@),
        None => None,
    }
}

/// What the environment says of who makes commits.
pub struct Environment {
    pub git_author_name: Option<String>,
    pub user: Option<String>,
    pub git_author_email: Option<String>,
}

/// Who makes commits, by name and address: whom the settings name, or else the
/// environment, by the name of an author or of a user.
pub open spec fn author_of(
    name: Option<Seq<char>>,
    author: Option<Seq<char>>,
    user: Option<Seq<char>>,
    email: Option<Seq<char>>,
    author_email: Option<Seq<char>>,
) -> (Seq<char>, Seq<char>) {
    let who = first_of(name, author, user, "davgit"@);
    (who, first_of(email, author_email, None, who + "@localhost"@))
}

/// Who makes commits: whom the settings name, or else the environment, and at
/// the last `davgit`; with the name at `localhost` where there is no address.
pub fn resolve_author(args: &Args, env: &Environment) -> (r: (String, String))
    ensures
        (r.0@, r.1@) == author_of(
            maybe(args.author_name),
            maybe(env.git_author_name),
            maybe(env.user),
            maybe(args.author_email),
            maybe(env.git_author_email),
        ),
{
    let name: String = match &args.author_name {
        Some(n) => n.clone(),
        None => match &env.git_author_name {
            Some(n) => n.clone(),
            None => match &env.user {
                Some(n) => n.clone(),
                None => "davgit".to_owned(),
            },
        },
    };
    let email: String = match &args.author_email {
        Some(e) => e.clone(),
        None => match &env.git_author_email {
            Some(e) => e.clone(),
            None => {
                let mut e: String = name.clone();
                e.append("@localhost");
                e
            },
        },
    };
    (name, email)
}

} // verus!
