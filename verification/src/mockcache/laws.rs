//! What a synthetic message holds.

use vstd::prelude::*;

use crate::filename::laws::lemma_number_first;
use crate::mockcache::{header_line, header_lines, uidvalidity_path, MsgView, MOCK_SECS};
use crate::number::decimal;
use crate::number::laws::law_decimal_distinct;
use crate::scan::path_join;

verus! {

/// A synthetic message has, one line each and in this order, its sender with the display
/// name if there is one, its subject, its Message-ID, which is made from its number if it
/// was not given, the two headers of its list if it is on one, and the headers added; then
/// a blank line and a body.
pub proof fn law_mock_text(m: MsgView, number: u64)
    ensures
        ({
            let sender = match m.from_name {
                Some(name) => name + " "@ + ("<"@ + m.from + ">"@),
                None => m.from,
            };
            let id = match m.message_id {
                Some(id) => id,
                None => "mock-"@ + decimal(number as nat) + "@example.com"@,
            };
            let list = match m.list_id {
                Some(l) => header_line("List-Id"@, "<"@ + l + ">"@) + header_line(
                    "List-Unsubscribe"@,
                    "<"@ + "mailto:unsub@example.com"@ + ">"@,
                ),
                None => Seq::empty(),
            };
            m.text(number) == header_line("From"@, sender) + header_line("Subject"@, m.subject)
                + header_line("Message-ID"@, "<"@ + id + ">"@) + list + header_lines(
                m.extra_headers,
            ) + "\r\n"@ + "This is a mock message body.\r\n"@
        }),
{
}

/// A header is its name, a colon, its value and a line break; headers that are added follow
/// one another.
pub proof fn law_mock_headers(
    pairs: Seq<(Seq<char>, Seq<char>)>,
    name: Seq<char>,
    value: Seq<char>,
)
    ensures
        header_line(name, value) == name + ": "@ + value + "\r\n"@,
        header_lines(Seq::empty()) == Seq::<char>::empty(),
        header_lines(pairs.push((name, value))) == header_lines(pairs) + header_line(name, value),
{
    assert(pairs.push((name, value)).drop_last() =~= pairs);
}

/// A synthetic message lies in `new` of its folder if it is new, else in `cur`, under its
/// native name.
pub proof fn law_mock_path(m: MsgView, root: Seq<char>, number: u64)
    ensures
        m.path(root, number) == path_join(
            path_join(
                path_join(root, m.folder),
                if m.is_new {
                    "new"@
                } else {
                    "cur"@
                },
            ),
            m.name(number).rendered(),
        ),
        uidvalidity_path(root, m.folder) == path_join(path_join(root, m.folder), ".uidvalidity"@),
        m.name(number).uid == m.uid,
        m.name(number).flags == m.flags,
{
}

/// Synthetic messages of different numbers have different names and Message-IDs.
pub proof fn law_mock_names_differ(a: MsgView, b: MsgView, n: u64, k: u64)
    requires
        n != k,
    ensures
        a.name(n).base != b.name(k).base,
        a.message_id is None && b.message_id is None ==> a.id(n) != b.id(k),
{
    let secs = decimal(MOCK_SECS as nat) + seq!['.'];
    let x = a.name(n).base;
    let y = b.name(k).base;
    let mark_a = match a.uid {
        Some(uid) => uid as u64,
        None => n,
    };
    let mark_b = match b.uid {
        Some(uid) => uid as u64,
        None => k,
    };
    let rest_a = decimal(mark_a as nat) + seq!['.', 'm', 'o', 'c', 'k'];
    let rest_b = decimal(mark_b as nat) + seq!['.', 'm', 'o', 'c', 'k'];
    assert(x =~= secs + (decimal(n as nat) + seq!['_'] + rest_a));
    assert(y =~= secs + (decimal(k as nat) + seq!['_'] + rest_b));
    if x == y {
        let u = decimal(n as nat) + seq!['_'] + rest_a;
        let v = decimal(k as nat) + seq!['_'] + rest_b;
        assert(x.skip(secs.len() as int) =~= u);
        assert(y.skip(secs.len() as int) =~= v);
        lemma_number_first(n as nat, k as nat, '_', rest_a, rest_b);
    }
    if a.message_id is None && b.message_id is None && a.id(n) == b.id(k) {
        let p = "mock-"@;
        let q = "@example.com"@;
        let i = a.id(n);
        assert(i.subrange(p.len() as int, i.len() - q.len()) =~= decimal(n as nat));
        assert(b.id(k).subrange(p.len() as int, b.id(k).len() - q.len()) =~= decimal(k as nat));
        law_decimal_distinct(n as nat, k as nat);
    }
}

} // verus!
