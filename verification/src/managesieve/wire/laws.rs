//! What the replies of a ManageSieve server mean.

use vstd::prelude::*;

use crate::managesieve::wire::{
    active_among, first_quoted, literal_size, status_of, without_line_end, Status,
};
use crate::number::laws::law_decimal;
use crate::number::{decimal, law_parse_decimal};
use crate::sieve::rendering::lemma_unindented;
use crate::text::laws::{law_letters, law_trim_set};
use crate::text::{
    find, has_text, is_white, lemma_find, lemma_find_is, occurs_at, starts_with, upper, upper_all,
};

verus! {

/// The word in capital letters.
pub open spec fn capitals(word: Seq<char>) -> Seq<char> {
    word.map_values(|c: char| upper(c))
}

/// Capital letters of a text that starts with a word.
proof fn lemma_starts_upper(x: Seq<char>, rest: Seq<char>, word: Seq<char>)
    requires
        capitals(x) == word,
    ensures
        starts_with(upper_all(x + rest), word),
{
    let all = upper_all(x + rest);
    assert(x.len() == word.len()) by {
        assert(capitals(x).len() == x.len());
    }
    assert forall|i: int| 0 <= i < word.len() implies all[i] == word[i] by {
        assert(capitals(x)[i] == upper(x[i]));
        assert((x + rest)[i] == x[i]);
    }
    assert(all.subrange(0, word.len() as int) =~= word);
}

/// A reply is a success if it says `OK`, in whatever case and behind whatever whitespace,
/// and a failure if it says `NO` or `BYE`. Any line that starts with none of these letters
/// says neither.
pub proof fn law_status(w: Seq<char>, x: Seq<char>, rest: Seq<char>)
    requires
        forall|i: int| 0 <= i < w.len() ==> is_white(#[trigger] w[i]),
    ensures
        capitals(x) == "OK"@ ==> status_of(w + (x + rest)) == Status::Done,
        capitals(x) == "NO"@ || capitals(x) == "BYE"@ ==> status_of(w + (x + rest))
            == Status::Failed,
        x.len() > 0 && !is_white(x[0]) && upper(x[0]) != 'O' && upper(x[0]) != 'N' && upper(x[0])
            != 'B' ==> status_of(w + (x + rest)) == Status::More,
{
    reveal_strlit("OK");
    reveal_strlit("NO");
    reveal_strlit("BYE");
    let s = x + rest;
    if capitals(x) == "OK"@ || capitals(x) == "NO"@ || capitals(x) == "BYE"@ {
        assert(x.len() == capitals(x).len());
        assert(capitals(x)[0] == upper(x[0]));
        law_letters(x[0]);
        assert(!is_white(x[0]));
        lemma_unindented(w, s);
    }
    if capitals(x) == "OK"@ {
        lemma_starts_upper(x, rest, "OK"@);
    }
    if capitals(x) == "NO"@ {
        lemma_starts_upper(x, rest, "NO"@);
        lemma_not_both(s, "NO"@, "OK"@);
    }
    if capitals(x) == "BYE"@ {
        lemma_starts_upper(x, rest, "BYE"@);
        lemma_not_both(s, "BYE"@, "OK"@);
    }
    if x.len() > 0 && !is_white(x[0]) && upper(x[0]) != 'O' && upper(x[0]) != 'N' && upper(x[0])
        != 'B' {
        lemma_unindented(w, s);
        let u = upper_all(s);
        assert(u[0] == upper(x[0]));
        if starts_with(u, "OK"@) {
            assert(u.subrange(0, 2)[0] == 'O');
        }
        if starts_with(u, "NO"@) {
            assert(u.subrange(0, 2)[0] == 'N');
        }
        if starts_with(u, "BYE"@) {
            assert(u.subrange(0, 3)[0] == 'B');
        }
    }
}

/// A text starts with one word only, if their first letters differ.
proof fn lemma_not_both(s: Seq<char>, v: Seq<char>, w: Seq<char>)
    requires
        starts_with(upper_all(s), v),
        v.len() > 0,
        w.len() > 0,
        v[0] != w[0],
    ensures
        !starts_with(upper_all(s), w),
{
    let u = upper_all(s);
    assert(u.subrange(0, v.len() as int)[0] == u[0]);
    if starts_with(u, w) {
        assert(u.subrange(0, w.len() as int)[0] == u[0]);
    }
}

/// The size of a literal stands in braces, with or without a plus behind it. Without
/// braces there is none.
pub proof fn law_literal(n: nat, s: Seq<char>)
    requires
        n <= usize::MAX,
    ensures
        literal_size(seq!['{'] + decimal(n) + seq!['}']) == Some(n),
        literal_size(seq!['{'] + decimal(n) + seq!['+', '}']) == Some(n),
        s.len() == 0 || s[0] != '{' || s.last() != '}' ==> literal_size(s) is None,
{
    let d = decimal(n);
    let set = seq!['+'];
    let none = Seq::<char>::empty();
    law_decimal(n);
    law_parse_decimal(n, usize::MAX as nat);
    assert(set[0] == '+');
    assert forall|c: char| set.contains(c) implies c == '+' by {}
    assert(48 <= d[0] as int <= 57 && 48 <= d[d.len() - 1] as int <= 57);
    assert(!set.contains(d[0]) && !set.contains(d.last()));
    law_trim_set(none, d, none, set);
    law_trim_set(none, d, set, set);
    let a = seq!['{'] + d + seq!['}'];
    let b = seq!['{'] + d + seq!['+', '}'];
    assert(a.subrange(1, a.len() - 1) =~= d + none);
    assert(b.subrange(1, b.len() - 1) =~= d + set);
}

/// Where a quotation mark stands.
proof fn lemma_mark(s: Seq<char>, i: int)
    ensures
        occurs_at(s, seq!['"'], i) <==> 0 <= i < s.len() && s[i] == '"',
{
    if 0 <= i < s.len() {
        assert(s.subrange(i, i + 1)[0] == s[i]);
        if s[i] == '"' {
            assert(s.subrange(i, i + 1) =~= seq!['"']);
        }
        if occurs_at(s, seq!['"'], i) {
            assert(seq!['"'][0] == '"');
        }
    }
}

/// Where the first quotation mark stands.
proof fn lemma_first_mark(a: Seq<char>, b: Seq<char>)
    requires
        !a.contains('"'),
    ensures
        find(a + seq!['"'] + b, seq!['"']) == Some(a.len() as int),
        find(a, seq!['"']) is None,
{
    let all = a + seq!['"'] + b;
    let n = a.len() as int;
    lemma_mark(all, n);
    assert forall|k: int| 0 <= k < n implies !occurs_at(all, seq!['"'], k) by {
        lemma_mark(all, k);
        assert(all[k] == a[k]);
    }
    lemma_find_is(all, seq!['"'], n);
    assert forall|k: int| !occurs_at(a, seq!['"'], k) by {
        lemma_mark(a, k);
    }
    lemma_find(a, seq!['"']);
}

/// The name in a line is what stands between its first two quotation marks; without two
/// there is none.
pub proof fn law_quoted_name(a: Seq<char>, name: Seq<char>, rest: Seq<char>)
    requires
        !a.contains('"'),
        !name.contains('"'),
    ensures
        first_quoted(a + seq!['"'] + name + seq!['"'] + rest) == Some(name),
        first_quoted(a + seq!['"'] + name) is None,
        first_quoted(a) is None,
{
    let tail = name + seq!['"'] + rest;
    let line = a + seq!['"'] + name + seq!['"'] + rest;
    assert(line =~= a + seq!['"'] + tail);
    lemma_first_mark(a, tail);
    lemma_first_mark(name, rest);
    assert(line.skip(a.len() as int + 1) =~= tail);
    assert(tail.take(name.len() as int) =~= name);
    let short = a + seq!['"'] + name;
    lemma_first_mark(a, name);
    assert(short.skip(a.len() as int + 1) =~= name);
}

/// The line names the active script.
pub open spec fn is_marked(line: Seq<char>) -> bool {
    has_text(capitals(line), "ACTIVE"@) && first_quoted(line) is Some
}

/// The active script is the one named in the first line that is marked so.
pub proof fn law_active(lines: Seq<Seq<char>>, k: int)
    requires
        0 <= k <= lines.len(),
        forall|j: int| 0 <= j < k ==> !is_marked(#[trigger] lines[j]),
        k < lines.len() ==> is_marked(lines[k]),
    ensures
        active_among(lines) == if k < lines.len() {
            first_quoted(lines[k])
        } else {
            None
        },
    decreases lines.len(),
{
    if lines.len() > 0 {
        assert(capitals(lines[0]) =~= upper_all(lines[0]));
        if k > 0 {
            assert(!is_marked(lines[0]));
            let rest = lines.skip(1);
            assert forall|j: int| 0 <= j < k - 1 implies !is_marked(#[trigger] rest[j]) by {
                assert(rest[j] == lines[j + 1]);
            }
            law_active(rest, k - 1);
        }
    }
}

/// The line break at the end of a line does not belong to it.
pub proof fn law_line_end(line: Seq<u8>, end: Seq<u8>)
    requires
        line.len() > 0 ==> line.last() != 10 && line.last() != 13,
        forall|i: int| 0 <= i < end.len() ==> (#[trigger] end[i]) == 10 || end[i] == 13,
    ensures
        without_line_end(line + end) == line,
    decreases end.len(),
{
    if end.len() > 0 {
        let less = end.drop_last();
        assert forall|i: int| 0 <= i < less.len() implies (#[trigger] less[i]) == 10 || less[i]
            == 13 by {
            assert(less[i] == end[i]);
        }
        law_line_end(line, less);
        assert((line + end).drop_last() =~= line + less);
        assert((line + end).last() == end[end.len() - 1]);
    } else {
        assert(line + end =~= line);
    }
}

} // verus!
