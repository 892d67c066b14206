//! What deploying promises, shown on the in-memory server, and that the texts of the
//! protocol can be read back.

use vstd::prelude::*;
use vstd::utf8::encode_utf8;

use crate::managesieve::fake::{FakeSieveOps, ScriptStore};
use crate::managesieve::wire::{base64, base64_digit, first_quoted, triple};
use crate::managesieve::{
    deployed, fetched, or_empty, previewed, targeted, DeployView, SieveOps, DEFAULT_SCRIPT,
};
use crate::model::SieveRuleView;
use crate::sieve::laws::{law_merge_declares, law_merge_idempotent, managed};
use crate::sieve::{
    declares, declaring, escaped, merged, quoted, rules_text, BEGIN_MARKER, END_MARKER,
};
use crate::text::{
    has_text, is_char, lemma_find_is, lemma_split_by_len, lemma_trim_start, lines, occurs_at, split,
    strip_cr, trim_start,
};

verus! {

// ---- deploying ----

/// The script that a deployment goes to.
pub open spec fn target_of(store: ScriptStore, preferred: Option<Seq<char>>) -> Seq<char> {
    match (preferred, store.active) {
        (Some(name), _) => name,
        (None, Some(name)) => name,
        (None, None) => DEFAULT_SCRIPT@,
    }
}

proof fn lemma_fetched(
    pre: FakeSieveOps,
    preferred: Option<Seq<char>>,
    post: FakeSieveOps,
    r: Result<(Seq<char>, Option<Seq<char>>), Seq<char>>,
)
    requires
        fetched(pre, preferred, post, r),
    ensures
        post == pre,
        r == Ok::<(Seq<char>, Option<Seq<char>>), Seq<char>>(
            (target_of(pre@, preferred), pre@.script(target_of(pre@, preferred))),
        ),
{
}

/// A preview uploads nothing: the server is as it was, and the result is the target script
/// with the rules merged into it.
pub proof fn law_preview_uploads_nothing(
    pre: FakeSieveOps,
    preferred: Option<Seq<char>>,
    rules: Seq<SieveRuleView>,
    post: FakeSieveOps,
    r: Result<Seq<char>, Seq<char>>,
)
    requires
        previewed(pre, preferred, rules, post, r),
    ensures
        post == pre,
        r == Ok::<Seq<char>, Seq<char>>(
            merged(or_empty(pre@.script(target_of(pre@, preferred))), rules),
        ),
{
    let got = choose|got: Result<(Seq<char>, Option<Seq<char>>), Seq<char>>| #[trigger]
        fetched(pre, preferred, post, got) && r == match got {
            Ok((_, script)) => Ok::<Seq<char>, Seq<char>>(merged(or_empty(script), rules)),
            Err(e) => Err(e),
        };
    lemma_fetched(pre, preferred, post, got);
}

/// Every piece of a text stands in it, the last one at its end.
pub proof fn lemma_piece_stands(s: Seq<char>, c: char, i: int)
    requires
        0 <= i < split(s, c).len(),
    ensures
        has_text(s, split(s, c)[i]),
        i == split(s, c).len() - 1 ==> occurs_at(s, split(s, c)[i], s.len() - split(s, c)[i].len()),
    decreases s.len(),
{
    let pieces = split(s, c);
    if s.len() == 0 {
        assert(s.subrange(0, 0) =~= pieces[0]);
        assert(occurs_at(s, pieces[0], 0));
    } else {
        let front = s.drop_last();
        let some = split(front, c);
        lemma_split_by_len(front, is_char(c));
        if i < some.len() {
            lemma_piece_stands(front, c, i);
        }
        if s.last() == c {
            if i == some.len() {
                assert(s.subrange(s.len() as int, s.len() as int) =~= pieces[i]);
                assert(occurs_at(s, pieces[i], s.len() as int));
            } else {
                let k = choose|k: int| occurs_at(front, some[i], k);
                assert(s.subrange(k, k + some[i].len()) =~= front.subrange(
                    k,
                    k + some[i].len(),
                ));
                assert(occurs_at(s, pieces[i], k));
            }
        } else {
            if i == some.len() - 1 {
                let k = front.len() - some[i].len();
                assert(occurs_at(front, some[i], k));
                assert(front.subrange(k, k + some[i].len()) == some[i]);
                assert(s.subrange(k, k + some[i].len() + 1) =~= some[i].push(s.last()));
                assert(occurs_at(s, pieces[i], k));
            } else {
                let k = choose|k: int| occurs_at(front, some[i], k);
                assert(s.subrange(k, k + some[i].len()) =~= front.subrange(
                    k,
                    k + some[i].len(),
                ));
                assert(occurs_at(s, pieces[i], k));
            }
        }
    }
}

/// What stands in a part of a text stands in the text.
proof fn lemma_text_in_part(s: Seq<char>, part: Seq<char>, pat: Seq<char>)
    requires
        has_text(s, part),
        has_text(part, pat),
    ensures
        has_text(s, pat),
{
    let k = choose|k: int| occurs_at(s, part, k);
    let j = choose|j: int| occurs_at(part, pat, j);
    assert(s.subrange(k, k + part.len()) == part);
    assert(s.subrange(k + j, k + j + pat.len()) =~= part.subrange(j, j + pat.len()));
    assert(occurs_at(s, pat, k + j));
}

/// A script that declares the extension holds the word `require`.
proof fn lemma_declares_require(s: Seq<char>)
    requires
        declares(s),
    ensures
        has_text(s, "require"@),
{
    let ls = lines(s);
    let i = choose|i: int| 0 <= i < ls.len() && declaring(#[trigger] ls[i]);
    let pieces = split(s, '\n');
    lemma_split_by_len(s, is_char('\n'));
    lemma_piece_stands(s, '\n', i);
    let line = ls[i];
    assert(line == pieces[i] || line == strip_cr(pieces[i]));
    assert(has_text(pieces[i], line)) by {
        assert(pieces[i].subrange(0, line.len() as int) =~= line);
        assert(occurs_at(pieces[i], line, 0));
    }
    let cut = trim_start(line);
    lemma_trim_start(line, line);
    assert(has_text(line, cut)) by {
        let d = line.len() - cut.len();
        assert(line.subrange(d, d + cut.len()) =~= cut);
        assert(occurs_at(line, cut, d));
    }
    assert(has_text(cut, "require"@)) by {
        assert(occurs_at(cut, "require"@, 0));
    }
    lemma_text_in_part(line, cut, "require"@);
    lemma_text_in_part(pieces[i], line, "require"@);
    lemma_text_in_part(s, pieces[i], "require"@);
}

/// A deployment goes through, since what it uploads is always accepted: the target script
/// holds the merged text and is active, every other script is as it was, and the report
/// says so.
pub proof fn law_deploy_goes_through(
    pre: FakeSieveOps,
    preferred: Option<Seq<char>>,
    rules: Seq<SieveRuleView>,
    post: FakeSieveOps,
    r: Result<DeployView, Seq<char>>,
)
    requires
        deployed(pre, preferred, rules, post, r),
    ensures
        ({
            let name = target_of(pre@, preferred);
            let text = merged(or_empty(pre@.script(name)), rules);
            &&& r == Ok::<DeployView, Seq<char>>(
                DeployView {
                    script: name,
                    bytes: encode_utf8(text).len(),
                    created: !pre@.scripts.contains_key(name),
                },
            )
            &&& post@.scripts == pre@.scripts.insert(name, text)
            &&& post@.active == Some(name)
        }),
{
    let name = target_of(pre@, preferred);
    let script = pre@.script(name);
    let text = merged(or_empty(script), rules);
    law_merge_declares(or_empty(script), rules);
    lemma_declares_require(text);
    assert forall|known: FakeSieveOps, got: Result<(Seq<char>, Option<Seq<char>>), Seq<char>>|
        #[trigger] fetched(pre, preferred, known, got) implies known == pre && got == Ok::<
        (Seq<char>, Option<Seq<char>>),
        Seq<char>,
    >((name, script)) by {
        lemma_fetched(pre, preferred, known, got);
    }
}

/// A preview can be trusted: a deployment right after it, of the same rules to the same
/// script, writes exactly the text that was shown, and reports its size.
pub proof fn law_deploy_as_previewed(
    pre: FakeSieveOps,
    preferred: Option<Seq<char>>,
    rules: Seq<SieveRuleView>,
    mid: FakeSieveOps,
    shown: Result<Seq<char>, Seq<char>>,
    post: FakeSieveOps,
    r: Result<DeployView, Seq<char>>,
)
    requires
        previewed(pre, preferred, rules, mid, shown),
        deployed(mid, preferred, rules, post, r),
    ensures
        shown is Ok,
        r is Ok,
        post@.script(r->Ok_0.script) == Some(shown->Ok_0),
        post@.active == Some(r->Ok_0.script),
        r->Ok_0.bytes == encode_utf8(shown->Ok_0).len(),
        post@.scripts.remove(r->Ok_0.script) == pre@.scripts.remove(r->Ok_0.script),
{
    law_preview_uploads_nothing(pre, preferred, rules, mid, shown);
    law_deploy_goes_through(mid, preferred, rules, post, r);
    assert(post@.scripts.remove(r->Ok_0.script) =~= pre@.scripts.remove(r->Ok_0.script));
}

/// Deploying the same rules again changes nothing: the second deployment writes the same
/// text to the same script. The markers of the script must be paired or absent, and the
/// rules must not spell the end marker.
pub proof fn law_deploy_idempotent(
    pre: FakeSieveOps,
    preferred: Option<Seq<char>>,
    rules: Seq<SieveRuleView>,
    mid: FakeSieveOps,
    first: Result<DeployView, Seq<char>>,
    post: FakeSieveOps,
    second: Result<DeployView, Seq<char>>,
)
    requires
        deployed(pre, preferred, rules, mid, first),
        deployed(mid, preferred, rules, post, second),
        ({
            let existing = or_empty(pre@.script(target_of(pre@, preferred)));
            managed(existing) || (!has_text(existing, BEGIN_MARKER@) && !has_text(
                existing,
                END_MARKER@,
            ))
        }),
        !has_text(rules_text(rules), END_MARKER@),
    ensures
        first is Ok,
        second is Ok,
        second->Ok_0.script == first->Ok_0.script,
        second->Ok_0.bytes == first->Ok_0.bytes,
        !second->Ok_0.created,
        post@.scripts == mid@.scripts,
        post@.active == mid@.active,
{
    law_deploy_goes_through(pre, preferred, rules, mid, first);
    law_deploy_goes_through(mid, preferred, rules, post, second);
    let name = target_of(pre@, preferred);
    law_merge_idempotent(or_empty(pre@.script(name)), rules);
    assert(target_of(mid@, preferred) == name);
    assert(post@.scripts =~= mid@.scripts);
}

// ---- quoting ----

/// What a reader makes of the inside of a double-quoted string: a backslash stands for the
/// character after it.
pub open spec fn unescaped(s: Seq<char>) -> Seq<char>
    decreases s.len(),
{
    if s.len() == 0 {
        Seq::empty()
    } else if s[0] == '\\' && s.len() >= 2 {
        seq![s[1]] + unescaped(s.skip(2))
    } else {
        seq![s[0]] + unescaped(s.skip(1))
    }
}

/// Escaped characters, one after another.
proof fn lemma_escaped_first(s: Seq<char>)
    requires
        s.len() > 0,
    ensures
        escaped(s) == if s[0] == '"' || s[0] == '\\' {
            seq!['\\', s[0]] + escaped(s.skip(1))
        } else {
            seq![s[0]] + escaped(s.skip(1))
        },
    decreases s.len(),
{
    if s.len() == 1 {
        assert(s.drop_last() =~= Seq::empty());
        assert(s.skip(1) =~= Seq::empty());
        assert(escaped(s) =~= if s[0] == '"' || s[0] == '\\' {
            seq!['\\', s[0]] + escaped(s.skip(1))
        } else {
            seq![s[0]] + escaped(s.skip(1))
        });
    } else {
        lemma_escaped_first(s.drop_last());
        assert(s.drop_last().skip(1) =~= s.skip(1).drop_last());
        assert(escaped(s) =~= if s[0] == '"' || s[0] == '\\' {
            seq!['\\', s[0]] + escaped(s.skip(1))
        } else {
            seq![s[0]] + escaped(s.skip(1))
        });
    }
}

/// Quoting is faithful: a reader of the quoted string gets the text back.
pub proof fn law_quote_reads_back(s: Seq<char>)
    ensures
        quoted(s).len() >= 2,
        quoted(s)[0] == '"',
        quoted(s).last() == '"',
        unescaped(quoted(s).subrange(1, quoted(s).len() - 1)) == s,
{
    assert(quoted(s).subrange(1, quoted(s).len() - 1) =~= escaped(s));
    lemma_unescaped(s);
}

proof fn lemma_unescaped(s: Seq<char>)
    ensures
        unescaped(escaped(s)) == s,
    decreases s.len(),
{
    if s.len() > 0 {
        lemma_escaped_first(s);
        lemma_unescaped(s.skip(1));
        let e = escaped(s);
        if s[0] == '"' || s[0] == '\\' {
            assert(e.skip(2) =~= escaped(s.skip(1)));
        } else {
            assert(e.skip(1) =~= escaped(s.skip(1)));
        }
        assert(s =~= seq![s[0]] + s.skip(1));
    } else {
        assert(s =~= Seq::empty());
    }
}

/// The name in a reply is read back as it was quoted, whatever follows it, if it needs no
/// escaping.
pub proof fn law_name_reads_back(name: Seq<char>, rest: Seq<char>)
    requires
        !name.contains('"'),
        !name.contains('\\'),
    ensures
        first_quoted(quoted(name) + rest) == Some(name),
{
    lemma_plain_escaped(name);
    let line = quoted(name) + rest;
    let mark = seq!['"'];
    assert(line.subrange(0, 1) =~= mark);
    lemma_find_is(line, mark, 0);
    let tail = line.skip(1);
    let n = name.len() as int;
    assert(tail.subrange(n, n + 1) =~= mark);
    assert forall|k: int| 0 <= k < name.len() implies !occurs_at(tail, mark, k) by {
        if occurs_at(tail, mark, k) {
            assert(tail.subrange(k, k + 1)[0] == '"');
            assert(name[k] == '"');
        }
    }
    lemma_find_is(tail, mark, name.len() as int);
    assert(tail.take(name.len() as int) =~= name);
}

proof fn lemma_plain_escaped(s: Seq<char>)
    requires
        !s.contains('"'),
        !s.contains('\\'),
    ensures
        escaped(s) == s,
    decreases s.len(),
{
    if s.len() > 0 {
        let some = s.drop_last();
        assert(s.contains(s.last()));
        if some.contains('"') {
            let i = some.index_of('"');
            assert(s[i] == '"');
        }
        if some.contains('\\') {
            let i = some.index_of('\\');
            assert(s[i] == '\\');
        }
        lemma_plain_escaped(some);
        assert(escaped(s) =~= s);
    } else {
        assert(escaped(s) =~= s);
    }
}

// ---- base64 ----

/// The number that a base64 digit stands for.
pub open spec fn base64_value(c: char) -> int {
    if 'A' <= c && c <= 'Z' {
        c as int - 65
    } else if 'a' <= c && c <= 'z' {
        c as int - 71
    } else if '0' <= c && c <= '9' {
        c as int + 4
    } else if c == '+' {
        62
    } else if c == '/' {
        63
    } else {
        0
    }
}

/// What a reader makes of base64: four digits become three bytes, fewer by one for each
/// `=` at the end.
pub open spec fn unbase64(s: Seq<char>) -> Seq<u8>
    decreases s.len(),
{
    if s.len() < 4 {
        Seq::empty()
    } else {
        let n = base64_value(s[0]) * 262144 + base64_value(s[1]) * 4096 + base64_value(s[2]) * 64
            + base64_value(s[3]);
        let a = (n / 65536) as u8;
        let b = (n / 256 % 256) as u8;
        let c = (n % 256) as u8;
        if s[2] == '=' {
            seq![a]
        } else if s[3] == '=' {
            seq![a, b]
        } else {
            seq![a, b, c] + unbase64(s.skip(4))
        }
    }
}

proof fn lemma_digit(n: int)
    requires
        0 <= n < 64,
    ensures
        base64_value(base64_digit(n)) == n,
        base64_digit(n) != '=',
{
}

/// A number of 24 bits is made of four digits.
proof fn lemma_four_digits(n: u32)
    by (bit_vector)
    requires
        n < 0x1000000,
    ensures
        n / 262144 < 64,
        n / 4096 % 64 < 64,
        n / 64 % 64 < 64,
        n % 64 < 64,
        n / 262144 * 262144 + n / 4096 % 64 * 4096 + n / 64 % 64 * 64 + n % 64 == n,
{
}

/// A number of 24 bits is made of three bytes.
proof fn lemma_three_bytes(a: u8, b: u8, c: u8)
    ensures
        0 <= triple(a, b, c) < 0x1000000,
        triple(a, b, c) / 65536 == a,
        triple(a, b, c) / 256 % 256 == b,
        triple(a, b, c) % 256 == c,
{
    let n = triple(a, b, c);
    assert(n / 256 == a * 256 + b);
}

proof fn lemma_triple(a: u8, b: u8, c: u8)
    ensures
        ({
            let n = triple(a, b, c);
            &&& 0 <= n / 262144 < 64
            &&& 0 <= n / 4096 % 64 < 64
            &&& 0 <= n / 64 % 64 < 64
            &&& 0 <= n % 64 < 64
            &&& n / 262144 * 262144 + n / 4096 % 64 * 4096 + n / 64 % 64 * 64 + n % 64 == n
            &&& n / 65536 == a
            &&& n / 256 % 256 == b
            &&& n % 256 == c
        }),
{
    lemma_three_bytes(a, b, c);
    lemma_four_digits(triple(a, b, c) as u32);
}

/// The number that the first four digits make.
spec fn group_value(s: Seq<char>) -> int {
    base64_value(s[0]) * 262144 + base64_value(s[1]) * 4096 + base64_value(s[2]) * 64
        + base64_value(s[3])
}

/// What a reader makes of digits that start with those for three bytes.
proof fn lemma_read_group(s: Seq<char>, a: u8, b: u8, c: u8)
    requires
        s.len() >= 4,
        group_value(s) == triple(a, b, c),
    ensures
        unbase64(s) == if s[2] == '=' {
            seq![a]
        } else if s[3] == '=' {
            seq![a, b]
        } else {
            seq![a, b, c] + unbase64(s.skip(4))
        },
{
    lemma_three_bytes(a, b, c);
}

/// The digits for three bytes make the number that the bytes make. The third and fourth
/// may be left out for `=` where they stand for zero.
proof fn lemma_group(s: Seq<char>, a: u8, b: u8, c: u8)
    requires
        s.len() >= 4,
        s[0] == base64_digit(triple(a, b, c) / 262144),
        s[1] == base64_digit(triple(a, b, c) / 4096 % 64),
        s[2] == base64_digit(triple(a, b, c) / 64 % 64) || (s[2] == '=' && triple(a, b, c) / 64
            % 64 == 0),
        s[3] == base64_digit(triple(a, b, c) % 64) || (s[3] == '=' && triple(a, b, c) % 64 == 0),
    ensures
        group_value(s) == triple(a, b, c),
{
    let n = triple(a, b, c);
    lemma_triple(a, b, c);
    lemma_digit(n / 262144);
    lemma_digit(n / 4096 % 64);
    lemma_digit(n / 64 % 64);
    lemma_digit(n % 64);
    assert(base64_value('=') == 0);
}

/// One or two bytes leave the last digits zero.
proof fn lemma_zero_digits(a: u8, b: u8)
    ensures
        triple(a, b, 0) % 64 == 0,
        triple(a, 0, 0) / 64 % 64 == 0,
{
    assert(triple(a, b, 0) == 64 * (a * 1024 + b * 4));
    assert(triple(a, 0, 0) / 64 == a * 1024);
}

/// Base64 is faithful: a reader gets the bytes back.
pub proof fn law_base64_reads_back(bytes: Seq<u8>)
    ensures
        unbase64(base64(bytes)) == bytes,
    decreases bytes.len(),
{
    let text = base64(bytes);
    if bytes.len() == 0 {
        assert(unbase64(text) =~= bytes);
    } else if bytes.len() == 1 {
        lemma_zero_digits(bytes[0], 0);
        lemma_group(text, bytes[0], 0, 0);
        lemma_read_group(text, bytes[0], 0, 0);
        assert(unbase64(text) =~= bytes);
    } else if bytes.len() == 2 {
        lemma_zero_digits(bytes[0], bytes[1]);
        lemma_triple(bytes[0], bytes[1], 0);
        lemma_digit(triple(bytes[0], bytes[1], 0) / 64 % 64);
        lemma_group(text, bytes[0], bytes[1], 0);
        lemma_read_group(text, bytes[0], bytes[1], 0);
        assert(unbase64(text) =~= bytes);
    } else {
        law_base64_reads_back(bytes.skip(3));
        lemma_triple(bytes[0], bytes[1], bytes[2]);
        lemma_digit(triple(bytes[0], bytes[1], bytes[2]) / 64 % 64);
        lemma_digit(triple(bytes[0], bytes[1], bytes[2]) % 64);
        lemma_group(text, bytes[0], bytes[1], bytes[2]);
        lemma_read_group(text, bytes[0], bytes[1], bytes[2]);
        assert(text.skip(4) =~= base64(bytes.skip(3)));
        assert(unbase64(text) =~= bytes);
    }
}

/// The in-memory server refuses a script that files mail without declaring so, and keeps
/// what it had; it activates only what it has.
pub proof fn law_server_refuses(store: ScriptStore, name: Seq<char>, content: Seq<char>)
    ensures
        has_text(content, "fileinto"@) && !has_text(content, "require"@) ==> store.put(
            name,
            content,
        ).1 is Err && store.put(name, content).0 == store,
        !(has_text(content, "fileinto"@) && !has_text(content, "require"@)) ==> {
            &&& store.put(name, content).1 is Ok
            &&& store.put(name, content).0.scripts == store.scripts.insert(name, content)
            &&& store.put(name, content).0.active == store.active
        },
        !store.scripts.contains_key(name) ==> store.activate(name).1 is Err && store.activate(
            name,
        ).0 == store,
        store.scripts.contains_key(name) ==> store.activate(name).1 is Ok && store.activate(
            name,
        ).0.active == Some(name) && store.activate(name).0.scripts == store.scripts,
{
}

/// The script was fetched, the merged text stored under its name, and that name activated;
/// a name that was given is the one used, and nothing was asked for it.
pub open spec fn went_through<O: SieveOps>(
    pre: O,
    preferred: Option<Seq<char>>,
    rules: Seq<SieveRuleView>,
    post: O,
    report: DeployView,
    chosen: O,
    known: O,
    put: O,
    script: Option<Seq<char>>,
) -> bool {
    let text = merged(or_empty(script), rules);
    &&& preferred matches Some(name) ==> chosen == pre && report.script == name
    &&& O::get_step(chosen, report.script, known, Ok(script))
    &&& O::put_step(known, report.script, text, put, Ok(()))
    &&& O::activate_step(put, report.script, post, Ok(()))
    &&& report.created == (script is None)
    &&& report.bytes == encode_utf8(text).len()
}

/// On any server, a deployment that is reported has gone step by step: the script was
/// fetched, the merged text was stored under its name, and that name was activated, each
/// of which succeeded. A name that was given is the one used, and nothing is asked for it.
pub proof fn law_deploy_steps<O: SieveOps>(
    pre: O,
    preferred: Option<Seq<char>>,
    rules: Seq<SieveRuleView>,
    post: O,
    report: DeployView,
)
    requires
        deployed(pre, preferred, rules, post, Ok(report)),
    ensures
        exists|chosen: O, known: O, put: O, script: Option<Seq<char>>| #[trigger]
            went_through(pre, preferred, rules, post, report, chosen, known, put, script),
{
    let (known, put, name, script, last) = choose|
        known: O,
        put: O,
        name: Seq<char>,
        script: Option<Seq<char>>,
        last: Result<(), Seq<char>>,
    |
        {
            &&& #[trigger] fetched(pre, preferred, known, Ok((name, script)))
            &&& #[trigger] O::put_step(known, name, merged(or_empty(script), rules), put, Ok(()))
            &&& #[trigger] O::activate_step(put, name, post, last)
            &&& Ok::<DeployView, Seq<char>>(report) == match last {
                Ok(_) => Ok::<DeployView, Seq<char>>(
                    DeployView {
                        script: name,
                        bytes: encode_utf8(merged(or_empty(script), rules)).len(),
                        created: script is None,
                    },
                ),
                Err(e) => Err(e),
            }
        };
    let (chosen, target, got) = choose|
        chosen: O,
        target: Seq<char>,
        got: Result<Option<Seq<char>>, Seq<char>>,
    |
        {
            &&& #[trigger] targeted(pre, preferred, chosen, Ok(target))
            &&& #[trigger] O::get_step(chosen, target, known, got)
            &&& Ok::<(Seq<char>, Option<Seq<char>>), Seq<char>>((name, script)) == match got {
                Ok(s) => Ok::<(Seq<char>, Option<Seq<char>>), Seq<char>>((target, s)),
                Err(e) => Err(e),
            }
        };
    assert(last is Ok && last->Ok_0 == ());
    assert(last == Ok::<(), Seq<char>>(()));
    assert(went_through(pre, preferred, rules, post, report, chosen, known, put, script));
}

} // verus!
