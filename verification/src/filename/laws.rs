//! What native filenames look like.

use vstd::prelude::*;

use crate::filename::{
    law_name_round_trip, lemma_decimal_plain, local_base, parsed, stem, uid_mark, uid_of, NameView,
};
use crate::number::laws::{law_decimal_distinct, law_parse_reads_digits};
use crate::number::{decimal, parse_uint};
use crate::text::laws::law_cut;
use crate::text::{
    has_text, lemma_find, lemma_find_is, lemma_rfind, occurs_at, rfind, starts_with,
};

verus! {

/// A native name is its base, `,U=` and the UID where there is one, then `:2,` and the
/// flags; read or written.
pub proof fn law_native_name(base: Seq<char>, uid: u32, flags: Seq<char>)
    requires
        !base.contains(':'),
    ensures
        ({
            let name = base + seq![',', 'U', '='] + decimal(uid as nat) + seq![':', '2', ',']
                + flags;
            let v = NameView { base, uid: Some(uid), flags };
            v.rendered() == name && parsed(name) == v
        }),
        ({
            let name = base + seq![':', '2', ','] + flags;
            let v = NameView { base, uid: None, flags };
            v.rendered() == name && (!has_text(base, seq![',', 'U', '=']) ==> parsed(name) == v)
        }),
{
    let with = NameView { base, uid: Some(uid), flags };
    let without = NameView { base, uid: None, flags };
    law_name_round_trip(with);
    if !has_text(base, uid_mark()) {
        lemma_rfind(base, uid_mark());
        law_name_round_trip(without);
    }
}

/// What is not understood is kept: a name without a colon is all base; one whose info is
/// of another version has no flags; and `,U=` without a number behind it belongs to the
/// base.
pub proof fn law_odd_names_kept(left: Seq<char>, info: Seq<char>)
    requires
        !left.contains(':'),
        uid_of(left) is None,
    ensures
        parsed(left) == (NameView { base: left, uid: None, flags: Seq::empty() }),
        !starts_with(info, seq!['2', ',']) ==> parsed(left + seq![':'] + info) == (NameView {
            base: left,
            uid: None,
            flags: Seq::empty(),
        }),
        parsed(left + seq![':'] + info).base == left,
        parsed(left + seq![':'] + info).uid is None,
{
    let name = left + seq![':'] + info;
    let colon = seq![':'];
    let n = left.len() as int;
    lemma_find(left, colon);
    assert forall|k: int| !occurs_at(left, colon, k) by {
        if occurs_at(left, colon, k) {
            assert(left.subrange(k, k + 1)[0] == ':');
            assert(left[k] == ':');
        }
    }
    assert(stem(left) == left);
    assert(name.subrange(n, n + 1) =~= colon);
    assert(occurs_at(name, colon, n));
    assert forall|k: int| 0 <= k < n implies !occurs_at(name, colon, k) by {
        if occurs_at(name, colon, k) {
            assert(name.subrange(k, k + 1)[0] == ':');
            assert(left[k] == ':');
        }
    }
    lemma_find_is(name, colon, n);
    assert(name.take(n) =~= left);
    assert(name.skip(n + 1) =~= info);
}

/// Text that does not start as a number is none.
proof fn lemma_no_number(b: Seq<char>, max: nat)
    requires
        b.len() == 0 || (b[0] != '+' && !(48 <= b[0] as int <= 57)),
    ensures
        parse_uint(b, max) is None,
{
    law_parse_reads_digits(b, max);
    if b.len() > 0 && parse_uint(b, max) is Some {
        assert(48 <= b[0] as int <= 57);
    }
}

/// Where a mark stands last.
proof fn lemma_last_mark(a: Seq<char>, mark: Seq<char>, b: Seq<char>)
    requires
        mark.len() > 0,
        !has_text(mark.skip(1) + b, mark),
    ensures
        rfind(a + mark + b, mark) == Some(a.len() as int),
{
    let s = a + mark + b;
    let n = a.len() as int;
    let m = mark.len() as int;
    assert(s.subrange(n, n + m) =~= mark);
    let rest = mark.skip(1) + b;
    assert(s.skip(n + 1) =~= rest);
    lemma_rfind(s, mark);
    assert(occurs_at(s, mark, n));
    let k = rfind(s, mark)->0;
    if k > n {
        let j = k - n - 1;
        assert(rest.subrange(j, j + m) =~= s.subrange(k, k + m));
        assert(occurs_at(rest, mark, j));
    }
}

/// A last `,U=` without a number behind it gives no UID.
pub proof fn law_uid_needs_digits(a: Seq<char>, b: Seq<char>)
    requires
        b.len() == 0 || (b[0] != '+' && !(48 <= b[0] as int <= 57)),
        !has_text(seq!['U', '='] + b, seq![',', 'U', '=']),
    ensures
        uid_of(a + seq![',', 'U', '='] + b) is None,
{
    assert(uid_mark().skip(1) =~= seq!['U', '=']);
    lemma_last_mark(a, uid_mark(), b);
    lemma_no_number(b, u32::MAX as nat);
    assert((a + uid_mark() + b).skip(a.len() as int + 3) =~= b);
}

/// Two numbers before the same character, followed by more.
pub proof fn lemma_number_first(a: nat, b: nat, c: char, x: Seq<char>, y: Seq<char>)
    requires
        decimal(a) + seq![c] + x == decimal(b) + seq![c] + y,
        !('0' <= c && c <= '9'),
    ensures
        a == b,
        x == y,
{
    lemma_decimal_plain(a, c);
    lemma_decimal_plain(b, c);
    law_cut(decimal(a), x, c);
    law_cut(decimal(b), y, c);
    law_decimal_distinct(a, b);
    let s = decimal(a) + seq![c] + x;
    assert(s.skip(decimal(a).len() as int + 1) =~= x);
    assert(s.skip(decimal(b).len() as int + 1) =~= y);
}

/// Fresh names are unique: two names made for different seconds, microseconds or counts
/// differ.
pub proof fn law_fresh_names_differ(
    secs: u64,
    micros: u32,
    count: u64,
    host: Seq<char>,
    secs2: u64,
    micros2: u32,
    count2: u64,
)
    requires
        local_base(secs, micros, count, host) == local_base(secs2, micros2, count2, host),
    ensures
        secs == secs2,
        micros == micros2,
        count == count2,
{
    let tail = decimal(count as nat) + seq!['.'] + host;
    let tail2 = decimal(count2 as nat) + seq!['.'] + host;
    let rest = decimal(micros as nat) + seq!['_'] + tail;
    let rest2 = decimal(micros2 as nat) + seq!['_'] + tail2;
    assert(local_base(secs, micros, count, host) =~= decimal(secs as nat) + seq!['.'] + rest);
    assert(local_base(secs2, micros2, count2, host) =~= decimal(secs2 as nat) + seq!['.'] + rest2);
    lemma_number_first(secs as nat, secs2 as nat, '.', rest, rest2);
    lemma_number_first(micros as nat, micros2 as nat, '_', tail, tail2);
    lemma_number_first(count as nat, count2 as nat, '.', host, host);
}

} // verus!
