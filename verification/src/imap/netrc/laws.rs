//! Whose password a netrc file gives.

use vstd::prelude::*;

use crate::imap::netrc::{auth_from, entry_body, entry_says, token_at, AuthView};

verus! {

/// The token starts an entry.
pub open spec fn starts_entry(t: Seq<char>) -> bool {
    t == "machine"@ || t == "default"@ || t == "macdef"@
}

/// The keywords differ from one another.
proof fn lemma_keywords()
    ensures
        "login"@ != "password"@,
        "login"@ != "user"@,
        "login"@ != "machine"@,
        "login"@ != "default"@,
        "login"@ != "macdef"@,
        "password"@ != "user"@,
        "password"@ != "machine"@,
        "password"@ != "default"@,
        "password"@ != "macdef"@,
        "machine"@ != "default"@,
{
    reveal_strlit("login");
    reveal_strlit("user");
    reveal_strlit("password");
    reveal_strlit("machine");
    reveal_strlit("default");
    reveal_strlit("macdef");
    assert("login"@[0] == 'l');
    assert("user"@[0] == 'u');
    assert("password"@[0] == 'p');
    assert("machine"@[2] == 'c');
    assert("macdef"@[3] == 'd');
    assert("machine"@[0] == 'm');
    assert("default"@[0] == 'd');
    assert("macdef"@[0] == 'm');
}

/// The tokens of an entry for a machine, with a login and a password.
pub open spec fn entry(machine: Seq<char>, login: Seq<char>, password: Seq<char>) -> Seq<
    Seq<char>,
> {
    seq!["machine"@, machine, "login"@, login, "password"@, password]
}

/// What an entry says is the login and the password in it, whichever comes first.
proof fn lemma_entry_read(
    tokens: Seq<Seq<char>>,
    j: int,
    login: Seq<char>,
    password: Seq<char>,
    login_first: bool,
)
    requires
        0 <= j,
        j + 4 <= tokens.len(),
        j + 4 == tokens.len() || starts_entry(tokens[j + 4]),
        login_first ==> tokens[j] == "login"@ && tokens[j + 1] == login && tokens[j + 2]
            == "password"@ && tokens[j + 3] == password,
        !login_first ==> tokens[j] == "password"@ && tokens[j + 1] == password && tokens[j + 2]
            == "login"@ && tokens[j + 3] == login,
    ensures
        entry_says(tokens, j, None, None) == (Some(login), Some(password)),
{
    lemma_keywords();
    reveal_with_fuel(entry_says, 4);
}

/// An entry for the machine that is asked for gives its login and its password, whatever
/// entries follow, and whichever of the two comes first.
pub proof fn law_own_entry(
    machine: Seq<char>,
    login: Seq<char>,
    password: Seq<char>,
    rest: Seq<Seq<char>>,
)
    requires
        rest.len() == 0 || starts_entry(rest[0]),
    ensures
        auth_from(entry(machine, login, password) + rest, 0, machine) == Some(
            AuthView { login, password },
        ),
        auth_from(
            seq!["machine"@, machine, "password"@, password, "login"@, login] + rest,
            0,
            machine,
        ) == Some(AuthView { login, password }),
{
    lemma_keywords();
    let a = entry(machine, login, password) + rest;
    let b = seq!["machine"@, machine, "password"@, password, "login"@, login] + rest;
    lemma_entry_read(a, 2, login, password, true);
    lemma_entry_read(b, 2, login, password, false);
    assert(a[0] == "machine"@ && a[1] == machine);
    assert(b[0] == "machine"@ && b[1] == machine);
    assert(entry_body(a, 0, machine) == Some(2int));
    assert(entry_body(b, 0, machine) == Some(2int));
}

/// What is found in later tokens does not depend on earlier ones.
proof fn lemma_shift_says(
    front: Seq<Seq<char>>,
    rest: Seq<Seq<char>>,
    j: int,
    login: Option<Seq<char>>,
    password: Option<Seq<char>>,
)
    requires
        0 <= j,
    ensures
        entry_says(front + rest, front.len() + j, login, password) == entry_says(
            rest,
            j,
            login,
            password,
        ),
    decreases rest.len() + 2 - j,
{
    let all = front + rest;
    let f = front.len() as int;
    if j < rest.len() {
        assert(all[f + j] == rest[j]);
        assert(token_at(all, f + j + 1) == token_at(rest, j + 1));
        let next = token_at(rest, j + 1);
        lemma_shift_says(front, rest, j + 2, next, password);
        lemma_shift_says(front, rest, j + 2, login, next);
        lemma_shift_says(front, rest, j + 2, login, password);
        lemma_shift_says(front, rest, j + 1, login, password);
    }
}

proof fn lemma_shift_auth(
    front: Seq<Seq<char>>,
    rest: Seq<Seq<char>>,
    i: int,
    machine: Seq<char>,
)
    requires
        0 <= i,
    ensures
        auth_from(front + rest, front.len() + i, machine) == auth_from(rest, i, machine),
    decreases rest.len() - i,
{
    let all = front + rest;
    let f = front.len() as int;
    if i < rest.len() {
        assert(all[f + i] == rest[i]);
        assert(token_at(all, f + i + 1) == token_at(rest, i + 1));
        lemma_shift_auth(front, rest, i + 1, machine);
        lemma_shift_says(front, rest, i + 1, None, None);
        lemma_shift_says(front, rest, i + 2, None, None);
    }
}

/// Tokens that start no entry for the machine are passed over.
proof fn lemma_passed_over(tokens: Seq<Seq<char>>, i: int, n: int, machine: Seq<char>)
    requires
        0 <= i <= n <= tokens.len(),
        forall|k: int| i <= k < n ==> entry_body(tokens, k, machine) is None,
    ensures
        auth_from(tokens, i, machine) == auth_from(tokens, n, machine),
    decreases n - i,
{
    if i < n {
        assert(entry_body(tokens, i, machine) is None);
        lemma_passed_over(tokens, i + 1, n, machine);
    }
}

/// The entry of another machine is never used: the answer is the one that the rest of the
/// file gives.
pub proof fn law_other_entry_skipped(
    machine: Seq<char>,
    other: Seq<char>,
    login: Seq<char>,
    password: Seq<char>,
    rest: Seq<Seq<char>>,
)
    requires
        other != machine,
        !starts_entry(other) && !starts_entry(login) && !starts_entry(password),
    ensures
        auth_from(entry(other, login, password) + rest, 0, machine) == auth_from(rest, 0, machine),
{
    lemma_keywords();
    let front = entry(other, login, password);
    let all = front + rest;
    assert forall|k: int| 0 <= k < 6 implies entry_body(all, k, machine) is None by {
        assert(all[k] == front[k]);
        assert(all[1] == other);
        assert(k == 0 || k == 1 || k == 2 || k == 3 || k == 4 || k == 5);
        if k == 0 {
            assert(token_at(all, 1) == Some(other));
        }
    }
    lemma_passed_over(all, 0, 6, machine);
    lemma_shift_auth(front, rest, 0, machine);
}

/// The default entry is for every machine that no earlier entry is for.
pub proof fn law_default_entry(
    machine: Seq<char>,
    login: Seq<char>,
    password: Seq<char>,
    rest: Seq<Seq<char>>,
)
    requires
        rest.len() == 0 || starts_entry(rest[0]),
    ensures
        auth_from(seq!["default"@, "login"@, login, "password"@, password] + rest, 0, machine)
            == Some(AuthView { login, password }),
{
    lemma_keywords();
    let a = seq!["default"@, "login"@, login, "password"@, password] + rest;
    lemma_entry_read(a, 1, login, password, true);
    assert(a[0] == "default"@);
    assert(entry_body(a, 0, machine) == Some(1int));
}

/// Without an entry that is for the machine there is no answer.
pub proof fn law_no_entry(tokens: Seq<Seq<char>>, machine: Seq<char>)
    requires
        forall|k: int|
            0 <= k < tokens.len() ==> (#[trigger] tokens[k]) != "default"@ && !(tokens[k]
                == "machine"@ && k + 1 < tokens.len() && tokens[k + 1] == machine),
    ensures
        auth_from(tokens, 0, machine) is None,
{
    assert forall|k: int| 0 <= k < tokens.len() implies entry_body(
        tokens,
        k,
        machine,
    ) is None by {
        assert(tokens[k] != "default"@);
    }
    lemma_passed_over(tokens, 0, tokens.len() as int, machine);
}

/// `user` stands for `login`; an account and a port say nothing of who logs in.
pub proof fn law_other_keywords(
    machine: Seq<char>,
    login: Seq<char>,
    password: Seq<char>,
    port: Seq<char>,
    rest: Seq<Seq<char>>,
)
    requires
        rest.len() == 0 || starts_entry(rest[0]),
    ensures
        auth_from(
            seq!["machine"@, machine, "user"@, login, "port"@, port, "password"@, password] + rest,
            0,
            machine,
        ) == Some(AuthView { login, password }),
{
    lemma_keywords();
    reveal_strlit("user");
    reveal_strlit("port");
    reveal_strlit("account");
    reveal_strlit("password");
    reveal_strlit("machine");
    reveal_strlit("default");
    reveal_strlit("macdef");
    reveal_strlit("login");
    assert("user"@[0] == 'u' && "port"@[1] == 'o' && "password"@[1] == 'a' && "port"@[0] == 'p');
    assert("machine"@[0] == 'm' && "default"@[0] == 'd' && "macdef"@[0] == 'm');
    assert("login"@[0] == 'l');
    let a = seq!["machine"@, machine, "user"@, login, "port"@, port, "password"@, password] + rest;
    assert(a[0] == "machine"@ && a[1] == machine && a[2] == "user"@ && a[3] == login);
    assert(a[4] == "port"@ && a[6] == "password"@ && a[7] == password);
    reveal_with_fuel(entry_says, 5);
    assert(entry_says(a, 2, None, None) == (Some(login), Some(password)));
    assert(entry_body(a, 0, machine) == Some(2int));
}

/// An entry that lacks the password is passed over, and a later one may be used.
pub proof fn law_incomplete_entry(machine: Seq<char>, login: Seq<char>, rest: Seq<Seq<char>>)
    requires
        rest.len() == 0 || starts_entry(rest[0]),
        !starts_entry(machine) && !starts_entry(login),
    ensures
        auth_from(seq!["machine"@, machine, "login"@, login] + rest, 0, machine) == auth_from(
            rest,
            0,
            machine,
        ),
{
    lemma_keywords();
    let front = seq!["machine"@, machine, "login"@, login];
    let all = front + rest;
    assert(all[0] == "machine"@ && all[1] == machine && all[2] == "login"@ && all[3] == login);
    reveal_with_fuel(entry_says, 3);
    assert(entry_says(all, 2, None, None) == (Some(login), None::<Seq<char>>));
    assert(auth_from(all, 0, machine) == auth_from(all, 1, machine));
    assert forall|k: int| 1 <= k < 4 implies entry_body(all, k, machine) is None by {
        assert(k == 1 || k == 2 || k == 3);
    }
    lemma_passed_over(all, 1, 4, machine);
    lemma_shift_auth(front, rest, 0, machine);
}

} // verus!
