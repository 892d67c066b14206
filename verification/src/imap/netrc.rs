//! Minimal `.netrc` parsing: enough to fetch the login/password for a machine, the same
//! source mbsync's `PassCmd` reads from. The password is never stored or logged.

pub mod laws;

use vstd::prelude::*;

use crate::text::{append_chars, chars_eq, from_chars, split_words, to_chars, views, words};

verus! {

/// A login with its password.
#[derive(Debug, Clone, PartialEq, Eq)]
pub struct NetrcAuth {
    pub login: String,
    pub password: String,
}

/// The view of a [`NetrcAuth`].
#[verifier::ext_equal]
pub ghost struct AuthView {
    pub login: Seq<char>,
    pub password: Seq<char>,
}

impl View for NetrcAuth {
    type V = AuthView;

    open spec fn view(&self) -> AuthView {
        AuthView { login: self.login@, password: self.password@ }
    }
}

/// The token at a position, if there is one.
pub open spec fn token_at(tokens: Seq<Seq<char>>, i: int) -> Option<Seq<char>> {
    if 0 <= i < tokens.len() {
        Some(tokens[i])
    } else {
        None
    }
}

/// What the entry body from token `j` on says of login and password, given what was said
/// before. A `machine` or `default` ends the entry, and so does a macro definition. Of a
/// word that takes a value the value is skipped; a later word overrides an earlier one.
pub open spec fn entry_says(
    tokens: Seq<Seq<char>>,
    j: int,
    login: Option<Seq<char>>,
    password: Option<Seq<char>>,
) -> (Option<Seq<char>>, Option<Seq<char>>)
    decreases tokens.len() + 2 - j,
{
    if j >= tokens.len() || tokens[j] == "machine"@ || tokens[j] == "default"@ || tokens[j]
        == "macdef"@ {
        (login, password)
    } else if tokens[j] == "login"@ || tokens[j] == "user"@ {
        entry_says(tokens, j + 2, token_at(tokens, j + 1), password)
    } else if tokens[j] == "password"@ {
        entry_says(tokens, j + 2, login, token_at(tokens, j + 1))
    } else if tokens[j] == "account"@ || tokens[j] == "port"@ {
        entry_says(tokens, j + 2, login, password)
    } else {
        entry_says(tokens, j + 1, login, password)
    }
}

/// Where the body of an entry for `machine` starts, if one starts with token `i`: after
/// `machine` and its name, or after `default`.
pub open spec fn entry_body(tokens: Seq<Seq<char>>, i: int, machine: Seq<char>) -> Option<int> {
    if tokens[i] == "default"@ {
        Some(i + 1)
    } else if tokens[i] == "machine"@ && token_at(tokens, i + 1) == Some(machine) {
        Some(i + 2)
    } else {
        None
    }
}

/// The credentials of the first entry for `machine`, from token `i` on, that has both a
/// login and a password.
pub open spec fn auth_from(tokens: Seq<Seq<char>>, i: int, machine: Seq<char>) -> Option<AuthView>
    decreases tokens.len() - i,
{
    if i >= tokens.len() {
        None
    } else {
        match entry_body(tokens, i, machine) {
            Some(j) => match entry_says(tokens, j, None, None) {
                (Some(login), Some(password)) => Some(AuthView { login, password }),
                _ => auth_from(tokens, i + 1, machine),
            },
            None => auth_from(tokens, i + 1, machine),
        }
    }
}

/// A copy of a token, if it is there.
fn take_token(tokens: &Vec<Vec<char>>, i: usize) -> (r: Option<Vec<char>>)
    ensures
        match r {
            Some(t) => token_at(views(tokens@), i as int) == Some(t@),
            None => token_at(views(tokens@), i as int) is None,
        },
{
    if i < tokens.len() {
        let mut t: Vec<char> = Vec::new();
        append_chars(&mut t, &tokens[i]);
        assert(t@ =~= tokens@[i as int]@);
        Some(t)
    } else {
        None
    }
}

/// The view of an optional token.
spec fn opt_chars(t: Option<Vec<char>>) -> Option<Seq<char>> {
    match t {
        Some(v) => Some(v@),
        None => None,
    }
}

/// The position after a word at `j` and its value, at most `n`.
fn past_value(n: usize, j: usize) -> (r: usize)
    requires
        j < n,
    ensures
        j < r <= n,
        r == j + 2 || (r == n && j + 2 > n),
{
    if n - j >= 2 {
        j + 2
    } else {
        n
    }
}

/// Read the body of an entry.
fn read_entry(tokens: &Vec<Vec<char>>, start: usize) -> (r: (Option<Vec<char>>, Option<Vec<char>>))
    ensures
        (opt_chars(r.0), opt_chars(r.1)) == entry_says(
            views(tokens@),
            start as int,
            None,
            None,
        ),
{
    let ghost all = views(tokens@);
    let w_machine = to_chars("machine");
    let w_default = to_chars("default");
    let w_macdef = to_chars("macdef");
    let w_login = to_chars("login");
    let w_user = to_chars("user");
    let w_password = to_chars("password");
    let w_account = to_chars("account");
    let w_port = to_chars("port");
    let mut login: Option<Vec<char>> = None;
    let mut password: Option<Vec<char>> = None;
    let n: usize = tokens.len();
    let mut j: usize = start;
    while j < n
        invariant
            n == tokens@.len(),
            all == views(tokens@),
            w_machine@ == "machine"@,
            w_default@ == "default"@,
            w_macdef@ == "macdef"@,
            w_login@ == "login"@,
            w_user@ == "user"@,
            w_password@ == "password"@,
            w_account@ == "account"@,
            w_port@ == "port"@,
            entry_says(all, start as int, None, None) == entry_says(
                all,
                j as int,
                opt_chars(login),
                opt_chars(password),
            ),
        decreases tokens@.len() - j,
    {
        let t = &tokens[j];
        assert(all[j as int] == t@);
        if chars_eq(t, &w_machine) || chars_eq(t, &w_default) || chars_eq(t, &w_macdef) {
            return (login, password);
        }
        if chars_eq(t, &w_login) || chars_eq(t, &w_user) {
            login = take_token(tokens, j + 1);
            assert(opt_chars(login) == token_at(all, j + 1));
            assert(entry_says(all, j + 2, opt_chars(login), opt_chars(password)) == entry_says(
                all,
                start as int,
                None,
                None,
            ));
            j = past_value(n, j);
        } else if chars_eq(t, &w_password) {
            password = take_token(tokens, j + 1);
            assert(opt_chars(password) == token_at(all, j + 1));
            assert(entry_says(all, j + 2, opt_chars(login), opt_chars(password)) == entry_says(
                all,
                start as int,
                None,
                None,
            ));
            j = past_value(n, j);
        } else if chars_eq(t, &w_account) || chars_eq(t, &w_port) {
            assert(entry_says(all, j + 2, opt_chars(login), opt_chars(password)) == entry_says(
                all,
                start as int,
                None,
                None,
            ));
            j = past_value(n, j);
        } else {
            j += 1;
        }
    }
    (login, password)
}

/// Find the `login`/`password` for `machine` in netrc `contents`. Tokens are
/// whitespace-separated per the netrc format; a `machine`/`default` keyword ends the
/// previous entry.
pub fn find_machine(contents: &str, machine: &str) -> (r: Option<NetrcAuth>)
    ensures
        match r {
            Some(auth) => auth_from(words(contents@), 0, machine@) == Some(auth@),
            None => auth_from(words(contents@), 0, machine@) is None,
        },
{
    let tokens = split_words(&to_chars(contents));
    let ghost all = words(contents@);
    let name = to_chars(machine);
    let w_machine = to_chars("machine");
    let w_default = to_chars("default");
    for i in 0..tokens.len()
        invariant
            all == words(contents@),
            all == views(tokens@),
            name@ == machine@,
            w_machine@ == "machine"@,
            w_default@ == "default"@,
            auth_from(all, 0, machine@) == auth_from(all, i as int, machine@),
    {
        assert(all[i as int] == tokens@[i as int]@);
        let body: Option<usize> = if chars_eq(&tokens[i], &w_default) {
            Some(i + 1)
        } else if chars_eq(&tokens[i], &w_machine) && i + 1 < tokens.len() && chars_eq(
            &tokens[i + 1],
            &name,
        ) {
            assert(all[i + 1] == tokens@[i + 1]@);
            Some(i + 2)
        } else {
            proof {
                if i + 1 < tokens@.len() {
                    assert(all[i + 1] == tokens@[i + 1]@);
                }
            }
            None
        };
        if let Some(j) = body {
            let (login, password) = read_entry(&tokens, j);
            assert(entry_body(all, i as int, machine@) == Some(j as int));
            if let (Some(l), Some(p)) = (login, password) {
                return Some(NetrcAuth { login: from_chars(&l), password: from_chars(&p) });
            }
        }
    }
    None
}

} // verus!
