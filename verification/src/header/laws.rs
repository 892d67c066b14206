//! What reading headers promises: only the header block counts, the fields come out clean,
//! and each comes from the headers that it is about.

use vstd::prelude::*;

use crate::header::{
    addresses_in, all_present, all_tidied, bare_id, blank_at, block_end, block_of, first_present,
    gleaned, gleaned_plainly, lemma_block_end, list_identifier, list_part, plainly, present,
    reads_as, reads_plainly, recipients_named, texts_in, tidied, AddressesView, TextsView,
    HEADER_READ_CAP,
};
use crate::lowercase::{ascii_lower, is_ascii, lowercased};
use crate::model::HeadersView;
use crate::order::{before, lemma_before_total};
use crate::seqs::lemma_same_list;
use crate::text::laws::{law_trim, law_trim_set};
use crate::text::{
    has_text, is_ascii_upper, is_white, lemma_rfind, lemma_trim_end_prefix, lower, occurs_at,
    rfind, trim, trim_end, trim_start,
};
use crate::textmap::{ascending, lemma_ascending_distinct};

verus! {

// ---- the header block ----

/// The header block of a header block is the whole of it.
pub proof fn law_block_is_stable(raw: Seq<u8>)
    ensures
        block_of(block_of(raw)) == block_of(raw),
{
    let block = block_of(raw);
    lemma_block_end(raw, 0);
    if block.len() < raw.len() {
        lemma_end_kept(raw, 0);
        assert(block_of(block) =~= block);
    } else {
        assert(block =~= raw);
    }
}

/// The end of a block is found in the block alone.
proof fn lemma_end_kept(raw: Seq<u8>, i: int)
    requires
        0 <= i,
        block_end(raw, i) < raw.len(),
        i <= block_end(raw, i),
    ensures
        block_end(raw.take(block_end(raw, i)), i) == block_end(raw, i),
    decreases raw.len() - i,
{
    let e = block_end(raw, i);
    let block = raw.take(e);
    if blank_at(raw, i) > 0 {
        assert(blank_at(block, i) == blank_at(raw, i));
    } else {
        lemma_block_end(raw, i + 1);
        lemma_end_kept(raw, i + 1);
        assert(blank_at(block, i) == 0);
        if i >= block.len() {
            assert(block_end(block, i) == block.len());
        }
    }
}

/// Nothing but the header block counts: messages with the same header block read alike,
/// whatever their bodies are.
pub proof fn law_only_headers_count(
    a: Seq<u8>,
    b: Seq<u8>,
    of_a: HeadersView,
    id_a: Option<Seq<char>>,
    of_b: HeadersView,
    id_b: Option<Seq<char>>,
)
    requires
        block_of(a) == block_of(b),
        reads_as(a, of_a, id_a),
        reads_as(b, of_b, id_b),
    ensures
        of_a == of_b,
        id_a == id_b,
{
    if texts_in(block_of(a)) is Some {
        let t = texts_in(block_of(a))->0;
        let found = addresses_in(block_of(a))->0;
        lemma_gleaned_once(t, found, of_a, of_b);
    }
}

/// What is gleaned from given headers is determined by them.
proof fn lemma_gleaned_once(t: TextsView, a: AddressesView, x: HeadersView, y: HeadersView)
    requires
        gleaned(t, a, x),
        gleaned(t, a, y),
    ensures
        x == y,
{
    let less = |p: Seq<char>, q: Seq<char>| before(p, q);
    assert forall|r: Seq<char>| #[trigger]
        x.recipients.contains(r) == y.recipients.contains(r) by {
        assert(x.recipients.to_set().contains(r) == y.recipients.to_set().contains(r));
    }
    assert forall|p: Seq<char>, q: Seq<char>| #[trigger] less(p, q) implies !less(q, p) by {
        lemma_before_total(p, q);
    }
    lemma_same_list(x.recipients, y.recipients, less);
    assert(x =~= y);
}

// ---- the fields ----

/// Text with no whitespace at either end.
pub open spec fn is_trimmed(s: Seq<char>) -> bool {
    s.len() > 0 ==> !is_white(s[0]) && !is_white(s.last())
}

/// Trimmed text without an uppercase ASCII letter.
pub open spec fn is_tidy(s: Seq<char>) -> bool {
    &&& is_trimmed(s)
    &&& forall|i: int| 0 <= i < s.len() ==> !is_ascii_upper(#[trigger] s[i])
}

/// Trimming trims.
proof fn lemma_trim(s: Seq<char>)
    ensures
        is_trimmed(trim(s)),
{
    let t = trim_start(s);
    lemma_start(s);
    lemma_end(t);
    lemma_trim_end_prefix(t);
    if trim_end(t).len() > 0 {
        assert(trim_end(t)[0] == t[0]);
    }
}

proof fn lemma_start(s: Seq<char>)
    ensures
        trim_start(s).len() > 0 ==> !is_white(trim_start(s)[0]),
    decreases s.len(),
{
    if s.len() > 0 && is_white(s[0]) {
        lemma_start(s.skip(1));
    }
}

proof fn lemma_end(s: Seq<char>)
    ensures
        trim_end(s).len() > 0 ==> !is_white(trim_end(s).last()),
    decreases s.len(),
{
    if s.len() > 0 && is_white(s.last()) {
        lemma_end(s.drop_last());
    }
}

/// Lowercasing what is trimmed leaves it tidy.
proof fn lemma_tidy(s: Seq<char>)
    requires
        is_trimmed(s),
    ensures
        is_tidy(ascii_lower(s)),
{
    let l = ascii_lower(s);
    assert forall|i: int| 0 <= i < l.len() implies !is_ascii_upper(#[trigger] l[i]) && is_white(
        l[i],
    ) == is_white(s[i]) by {
        assert(l[i] == lower(s[i]));
    }
}

/// The identifier in a `List-Id` value is trimmed.
proof fn lemma_list_part(raw: Seq<char>)
    ensures
        is_trimmed(list_part(raw)),
{
    lemma_trim(trim(raw));
    let a = rfind(raw, seq!['<']);
    let b = rfind(raw, seq!['>']);
    if a is Some && b is Some {
        lemma_trim(raw.subrange(a->0 + 1, b->0));
    }
}

/// The fields come out clean: the recipients in ascending order and each once, the display
/// name trimmed and never empty, the subject trimmed.
pub proof fn law_fields_are_clean(t: TextsView, a: AddressesView, h: HeadersView)
    requires
        gleaned(t, a, h),
    ensures
        ascending(h.recipients),
        h.recipients.no_duplicates(),
        h.from_name matches Some(name) ==> name.len() > 0 && is_trimmed(name),
        h.subject matches Some(subject) ==> is_trimmed(subject),
{
    lemma_ascending_distinct(h.recipients);
    if a.from_name is Some {
        lemma_trim(a.from_name->0);
    }
    if t.subject is Some {
        lemma_trim(t.subject->0);
    }
}

/// What ASCII text gives is tidy, which is to say trimmed and in lowercase: the list
/// identifier, the sender's address, and each recipient, if the header values that they
/// come from are ASCII.
pub proof fn law_ascii_fields_are_tidy(t: TextsView, a: AddressesView, h: HeadersView)
    requires
        gleaned(t, a, h),
        gleaned_plainly(t, a),
    ensures
        t.list_id is Some && is_ascii(list_part(t.list_id->0)) ==> (h.list_id matches Some(x)
            && is_tidy(x)),
        a.from_address is Some && is_ascii(trim(a.from_address->0)) ==> (
        h.from_addr matches Some(x) && is_tidy(x)),
        (forall|i: int|
            0 <= i < recipients_named(t, a).len() ==> is_ascii(
                trim(#[trigger] recipients_named(t, a)[i]),
            )) ==> forall|k: int| 0 <= k < h.recipients.len() ==> is_tidy(
            #[trigger] h.recipients[k],
        ),
{
    if t.list_id is Some {
        lemma_list_part(t.list_id->0);
        lemma_tidy(list_part(t.list_id->0));
    }
    if a.from_address is Some {
        lemma_trim(a.from_address->0);
        lemma_tidy(trim(a.from_address->0));
    }
    let named = recipients_named(t, a);
    if forall|i: int| 0 <= i < named.len() ==> is_ascii(trim(#[trigger] named[i])) {
        assert forall|k: int| 0 <= k < h.recipients.len() implies is_tidy(
            #[trigger] h.recipients[k],
        ) by {
            let y = h.recipients[k];
            assert(h.recipients.to_set().contains(y));
            let f = |x: Seq<char>| tidied(x);
            let all = named.map_values(f);
            assert(all_tidied(named) == all.to_set());
            let i = all.index_of(y);
            assert(all[i] == y);
            assert(y == tidied(named[i]));
            assert(plainly(trim(named[i])));
            lemma_trim(named[i]);
            lemma_tidy(trim(named[i]));
        }
    }
}

/// The values that a message's list identifier and addresses come from are ASCII.
pub open spec fn is_ascii_mail(raw: Seq<u8>) -> bool {
    match (texts_in(block_of(raw)), addresses_in(block_of(raw))) {
        (Some(t), Some(a)) => {
            &&& t.list_id matches Some(s) ==> is_ascii(list_part(s))
            &&& a.from_address matches Some(s) ==> is_ascii(trim(s))
            &&& forall|i: int|
                0 <= i < recipients_named(t, a).len() ==> is_ascii(
                    trim(#[trigger] recipients_named(t, a)[i]),
                )
        },
        _ => true,
    }
}

/// What is read from a message is read from its header block as well, and is clean: the
/// recipients ascend strictly, the display name is never empty, and, where the mail is
/// ASCII, the list identifier, the sender's address and every recipient are trimmed and in
/// lowercase.
pub proof fn law_parsed_mail_is_clean(raw: Seq<u8>, h: HeadersView, id: Option<Seq<char>>)
    requires
        reads_as(raw, h, id),
        reads_plainly(raw),
    ensures
        reads_as(block_of(raw), h, id),
        ascending(h.recipients),
        h.recipients.no_duplicates(),
        h.from_name matches Some(name) ==> name.len() > 0 && is_trimmed(name),
        h.subject matches Some(subject) ==> is_trimmed(subject),
        is_ascii_mail(raw) ==> {
            &&& h.list_id matches Some(x) ==> is_tidy(x)
            &&& h.from_addr matches Some(x) ==> is_tidy(x)
            &&& forall|k: int|
                0 <= k < h.recipients.len() ==> is_tidy(#[trigger] h.recipients[k])
        },
{
    law_block_is_stable(raw);
    if texts_in(block_of(raw)) is Some {
        let t = texts_in(block_of(raw))->0;
        let a = addresses_in(block_of(raw))->0;
        law_fields_are_clean(t, a, h);
        law_ascii_fields_are_tidy(t, a, h);
    }
}

// ---- where the fields come from ----

/// The addresses that are present are those of the list.
proof fn lemma_present(list: Seq<Option<Seq<char>>>, x: Seq<char>)
    ensures
        present(list).contains(x) <==> exists|i: int|
            0 <= i < list.len() && (#[trigger] list[i]) == Some(x),
    decreases list.len(),
{
    let all = present(list);
    if list.len() > 0 {
        let less = list.drop_last();
        let some = present(less);
        lemma_present(less, x);
        if all.contains(x) {
            let k = all.index_of(x);
            if k < some.len() {
                assert(some[k] == x);
                let i = choose|i: int| 0 <= i < less.len() && (#[trigger] less[i]) == Some(x);
                assert(list[i] == Some(x));
            } else {
                assert(list[list.len() - 1] == Some(x));
            }
        }
        if exists|i: int| 0 <= i < list.len() && (#[trigger] list[i]) == Some(x) {
            let i = choose|i: int| 0 <= i < list.len() && (#[trigger] list[i]) == Some(x);
            if i < less.len() {
                assert(less[i] == Some(x));
                assert(some.contains(x));
                let k = some.index_of(x);
                assert(all[k] == x);
            } else {
                assert(all[some.len() as int] == x);
            }
        }
    }
}

/// The header value names the address.
pub open spec fn lists(list: Option<Seq<Option<Seq<char>>>>, x: Seq<char>) -> bool {
    list matches Some(l) && exists|i: int| 0 <= i < l.len() && (#[trigger] l[i]) == Some(x)
}

/// A text is a recipient if and only if it is, trimmed and lowercased, an address of `To`,
/// an address of `Cc`, or the first `Delivered-To`.
pub proof fn law_recipients(t: TextsView, a: AddressesView, h: HeadersView, r: Seq<char>)
    requires
        gleaned(t, a, h),
    ensures
        h.recipients.contains(r) <==> exists|x: Seq<char>|
            {
                &&& r == lowercased(#[trigger] trim(x))
                &&& {
                    ||| lists(a.to, x)
                    ||| lists(a.cc, x)
                    ||| t.delivered_to matches Some(l) && l.len() > 0 && l[0] == x
                }
            },
        forall|l: Seq<Option<Seq<char>>>, i: int, x: Seq<char>|
            #![trigger l[i], trim(x)]
            (a.to == Some(l) || a.cc == Some(l)) && 0 <= i < l.len() && l[i] == Some(x)
                ==> h.recipients.contains(lowercased(trim(x))),
        t.delivered_to is Some && t.delivered_to->0.len() > 0 ==> h.recipients.contains(
            lowercased(trim(t.delivered_to->0[0])),
        ),
{
    let named = recipients_named(t, a);
    let f = |x: Seq<char>| tidied(x);
    let all = named.map_values(f);
    assert(all_tidied(named) == all.to_set());
    assert forall|x: Seq<char>| #[trigger] named.contains(x) <==> {
        ||| lists(a.to, x)
        ||| lists(a.cc, x)
        ||| t.delivered_to matches Some(l) && l.len() > 0 && l[0] == x
    } by {
        lemma_named(t, a, x);
    }
    assert forall|q: Seq<char>| #[trigger] h.recipients.contains(q) <==> exists|x: Seq<char>|
        q == lowercased(#[trigger] trim(x)) && named.contains(x) by {
        assert(h.recipients.to_set().contains(q) <==> all.to_set().contains(q));
        if all.contains(q) {
            let k = all.index_of(q);
            assert(all[k] == tidied(named[k]));
            assert(named.contains(named[k]));
            assert(q == lowercased(trim(named[k])));
        }
        if exists|x: Seq<char>| q == lowercased(#[trigger] trim(x)) && named.contains(x) {
            let x = choose|x: Seq<char>| q == lowercased(#[trigger] trim(x)) && named.contains(x);
            let k = named.index_of(x);
            assert(all[k] == q);
        }
    }
    assert forall|l: Seq<Option<Seq<char>>>, i: int, x: Seq<char>|
        #![trigger l[i], trim(x)]
        (a.to == Some(l) || a.cc == Some(l)) && 0 <= i < l.len() && l[i] == Some(
            x,
        ) implies h.recipients.contains(lowercased(trim(x))) by {
        assert(named.contains(x));
    }
    if t.delivered_to is Some && t.delivered_to->0.len() > 0 {
        let x = t.delivered_to->0[0];
        assert(named.contains(x));
        assert(lowercased(trim(x)) == lowercased(trim(x)));
    }
}

proof fn lemma_named(t: TextsView, a: AddressesView, x: Seq<char>)
    ensures
        recipients_named(t, a).contains(x) <==> {
            ||| lists(a.to, x)
            ||| lists(a.cc, x)
            ||| t.delivered_to matches Some(l) && l.len() > 0 && l[0] == x
        },
{
    let to = all_present(a.to);
    let cc = all_present(a.cc);
    let del = first_present(t.delivered_to);
    let named = recipients_named(t, a);
    if a.to is Some {
        lemma_present(a.to->0, x);
    }
    if a.cc is Some {
        lemma_present(a.cc->0, x);
    }
    assert(named =~= to + cc + del);
    if named.contains(x) {
        let k = named.index_of(x);
        if k < to.len() {
            assert(to[k] == x);
        } else if k < to.len() + cc.len() {
            assert(cc[k - to.len()] == x);
        } else {
            assert(del[k - to.len() - cc.len()] == x);
        }
    }
    if to.contains(x) {
        let k = to.index_of(x);
        assert(named[k] == x);
    }
    if cc.contains(x) {
        let k = cc.index_of(x);
        assert(named[to.len() + k] == x);
    }
    if t.delivered_to is Some && t.delivered_to->0.len() > 0 && t.delivered_to->0[0] == x {
        assert(del[0] == x);
        assert(named[(to.len() + cc.len()) as int] == x);
    }
}

/// Each field comes from its own header: the sender's address trimmed and lowercased, the
/// display name and the subject trimmed, a blank name counting as none. It is list mail if
/// and only if `List-Unsubscribe` or `List-Post` is there. A header that is missing gives
/// none.
pub proof fn law_fields_from_headers(t: TextsView, a: AddressesView, h: HeadersView)
    requires
        gleaned(t, a, h),
    ensures
        h.from_addr is Some <==> a.from_address is Some,
        a.from_address matches Some(x) ==> h.from_addr == Some(lowercased(trim(x))),
        h.from_name is Some <==> a.from_name is Some && trim(a.from_name->0).len() > 0,
        h.from_name matches Some(name) ==> name == trim(a.from_name->0),
        h.subject is Some <==> t.subject is Some,
        t.subject matches Some(x) ==> h.subject == Some(trim(x)),
        h.list_id is Some <==> t.list_id is Some,
        h.is_list_mail <==> t.list_unsubscribe || t.list_post,
{
}

/// The identifier of a list is what stands in the last angle brackets, trimmed and
/// lowercased; without brackets it is the whole value.
pub proof fn law_list_identifier(before: Seq<char>, id: Seq<char>, after: Seq<char>)
    requires
        !id.contains('<'),
        !after.contains('<'),
        !after.contains('>'),
    ensures
        list_identifier(before + seq!['<'] + id + seq!['>'] + after) == lowercased(trim(id)),
        list_identifier(after) == lowercased(trim(after)),
{
    let raw = before + seq!['<'] + id + seq!['>'] + after;
    let n = before.len() as int;
    let m = n + 1 + id.len();
    let open = seq!['<'];
    let close = seq!['>'];
    assert(raw.subrange(n, n + 1) =~= open);
    assert(occurs_at(raw, open, n));
    assert forall|k: int| n < k implies !occurs_at(raw, open, k) by {
        if occurs_at(raw, open, k) {
            assert(raw.subrange(k, k + 1)[0] == '<');
            assert(raw[k] == '<');
            if k < m {
                assert(id[k - n - 1] == '<');
            } else if k > m {
                assert(after[k - m - 1] == '<');
            }
        }
    }
    lemma_rfind(raw, open);
    assert(raw.subrange(m, m + 1) =~= close);
    assert(occurs_at(raw, close, m));
    assert forall|k: int| m < k implies !occurs_at(raw, close, k) by {
        if occurs_at(raw, close, k) {
            assert(raw.subrange(k, k + 1)[0] == '>');
            assert(raw[k] == '>');
            assert(after[k - m - 1] == '>');
        }
    }
    lemma_rfind(raw, close);
    assert(rfind(raw, open) == Some(n));
    assert(rfind(raw, close) == Some(m));
    assert(raw.subrange(n + 1, m) =~= id);
    lemma_rfind(after, open);
    assert(!has_text(after, open)) by {
        if has_text(after, open) {
            let k = choose|k: int| occurs_at(after, open, k);
            assert(after.subrange(k, k + 1)[0] == '<');
            assert(after[k] == '<');
        }
    }
    lemma_trim(after);
    lemma_trim_again(trim(after));
}

/// Trimming trimmed text changes nothing.
proof fn lemma_trim_again(s: Seq<char>)
    requires
        is_trimmed(s),
    ensures
        trim(s) == s,
{
    let none = Seq::<char>::empty();
    law_trim(none, s, none);
    assert(none + s + none =~= s);
}

/// A Message-ID is what stands inside its angle brackets, lowercased, and none where that
/// is nothing.
pub proof fn law_message_id(a: Seq<char>, id: Seq<char>, b: Seq<char>)
    requires
        forall|i: int| 0 <= i < a.len() ==> is_white(#[trigger] a[i]),
        forall|i: int| 0 <= i < b.len() ==> is_white(#[trigger] b[i]),
        id.len() > 0,
        id[0] != '<' && id[0] != '>' && !is_white(id[0]),
        id.last() != '<' && id.last() != '>' && !is_white(id.last()),
    ensures
        lowercased(id).len() > 0 ==> {
            &&& bare_id(Some(a + (seq!['<'] + id + seq!['>']) + b)) == Some(lowercased(id))
            &&& bare_id(Some(a + id + b)) == Some(lowercased(id))
        },
        bare_id(None) is None,
{
    let none = Seq::<char>::empty();
    let set = seq!['<', '>'];
    let inside = seq!['<'] + id + seq!['>'];
    assert(set[0] == '<' && set[1] == '>');
    assert forall|c: char| set.contains(c) implies c == '<' || c == '>' by {}
    assert(!is_white('<') && !is_white('>'));
    law_trim(a, inside, b);
    law_trim(a, id, b);
    law_trim_set(seq!['<'], id, seq!['>'], set);
    law_trim_set(none, id, none, set);
    assert(none + id + none =~= id);
}

// ---- where the block ends ----

/// A line feed and a blank line stand at `i`, which ends `n` bytes on.
pub open spec fn blank_line(raw: Seq<u8>, i: int, n: int) -> bool {
    ||| n == 2 && 0 <= i && i + 2 <= raw.len() && raw[i] == 10 && raw[i + 1] == 10
    ||| n == 3 && 0 <= i && i + 3 <= raw.len() && raw[i] == 10 && raw[i + 1] == 13 && raw[i + 2]
        == 10
}

/// The header block is the start of the message through its first blank line, be that
/// ended by a line feed or by a carriage return and a line feed; a message without a blank
/// line is all headers.
pub proof fn law_block_ends_at_blank(raw: Seq<u8>, i: int, n: int)
    ensures
        blank_line(raw, i, n) && (forall|j: int, k: int| j < i ==> !blank_line(raw, j, k))
            ==> block_of(raw) == raw.take(i + n),
        (forall|j: int, k: int| !blank_line(raw, j, k)) ==> block_of(raw) == raw,
{
    if blank_line(raw, i, n) && (forall|j: int, k: int| j < i ==> !blank_line(raw, j, k)) {
        lemma_end_at(raw, 0, i, n);
    }
    if forall|j: int, k: int| !blank_line(raw, j, k) {
        lemma_no_end(raw, 0);
        assert(raw.take(raw.len() as int) =~= raw);
    }
}

proof fn lemma_end_at(raw: Seq<u8>, from: int, i: int, n: int)
    requires
        0 <= from <= i,
        blank_line(raw, i, n),
        forall|j: int, k: int| j < i ==> !blank_line(raw, j, k),
    ensures
        block_end(raw, from) == i + n,
    decreases i - from,
{
    if from < i {
        assert(!blank_line(raw, from, 2) && !blank_line(raw, from, 3));
        lemma_end_at(raw, from + 1, i, n);
    }
}

proof fn lemma_no_end(raw: Seq<u8>, from: int)
    requires
        0 <= from,
        forall|j: int, k: int| !blank_line(raw, j, k),
    ensures
        block_end(raw, from) == raw.len(),
    decreases raw.len() - from,
{
    if from < raw.len() {
        assert(!blank_line(raw, from, 2) && !blank_line(raw, from, 3));
        lemma_no_end(raw, from + 1);
    }
}

/// What is read from a message is what the parser finds in its header block; where it finds
/// nothing, the fields are empty.
pub proof fn law_parsed_from_block(raw: Seq<u8>, h: HeadersView, id: Option<Seq<char>>)
    requires
        reads_as(raw, h, id),
    ensures
        match (texts_in(block_of(raw)), addresses_in(block_of(raw))) {
            (Some(t), Some(a)) => {
                &&& h.from_addr is Some <==> a.from_address is Some
                &&& a.from_address matches Some(x) ==> h.from_addr == Some(lowercased(trim(x)))
                &&& t.subject matches Some(x) ==> h.subject == Some(trim(x))
                &&& t.list_id matches Some(x) ==> h.list_id == Some(list_identifier(x))
                &&& forall|l: Seq<Option<Seq<char>>>, i: int, x: Seq<char>|
                    #![trigger l[i], trim(x)]
                    (a.to == Some(l) || a.cc == Some(l)) && 0 <= i < l.len() && l[i] == Some(x)
                        ==> h.recipients.contains(lowercased(trim(x)))
                &&& id == bare_id(t.message_id)
            },
            (Some(_), None) => false,
            (None, _) => {
                &&& h.list_id is None && h.from_addr is None && h.from_name is None
                &&& h.subject is None && h.recipients.len() == 0 && !h.is_list_mail
                &&& id is None
            },
        },
{
    if texts_in(block_of(raw)) is Some {
        let t = texts_in(block_of(raw))->0;
        let a = addresses_in(block_of(raw))->0;
        law_recipients(t, a, h, Seq::empty());
    }
}

/// A quarter of a megabyte is read of a message at the most.
pub proof fn law_read_cap()
    ensures
        HEADER_READ_CAP == 256 * 1024,
{
}

/// Brackets that are missing, or stand the wrong way round, enclose nothing: then the
/// whole value is the identifier.
pub proof fn law_list_identifier_unbracketed(a: Seq<char>, b: Seq<char>)
    requires
        !a.contains('<'),
        !b.contains('>'),
    ensures
        list_identifier(a + b) == lowercased(trim(a + b)),
{
    let raw = a + b;
    let open = seq!['<'];
    let close = seq!['>'];
    let n = a.len() as int;
    lemma_rfind(raw, open);
    lemma_rfind(raw, close);
    if rfind(raw, open) is Some && rfind(raw, close) is Some {
        let i = rfind(raw, open)->0;
        let j = rfind(raw, close)->0;
        assert(raw.subrange(i, i + 1)[0] == '<');
        assert(raw.subrange(j, j + 1)[0] == '>');
        assert(raw[i] == '<' && raw[j] == '>');
        if i < n {
            assert(a[i] == '<');
        }
        if j >= n {
            assert(b[j - n] == '>');
        }
        assert(j < i);
    }
    lemma_trim(raw);
    lemma_trim_again(trim(raw));
}

} // verus!
