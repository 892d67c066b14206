//! Header extraction: pull just the clustering-relevant fields out of a message without
//! decoding the body.
//!
//! Only the header block (up to the first blank line) is handed to `mail-parser`, so
//! per-message cost stays small.

pub mod laws;

use mail_parser::{Addr, Address, HeaderValue, MessageParser};
use vstd::prelude::*;

use crate::lowercase::{ascii_lower, is_ascii, lowercased, to_lowercase};
use crate::model::{HeadersView, MessageHeaders};
use crate::text::{
    find_last, from_chars, lemma_rfind, opt_text, opt_texts, rfind, slice, texts, to_chars, trim,
    trim_set, trimmed, trimmed_set,
};
use crate::textmap::{ascending, TextSet};

verus! {

// ---- the header block ----

/// The length of the line break and the blank line that start at `i`: two for `\n\n`,
/// three for `\n\r\n`, zero where there is no blank line.
pub open spec fn blank_at(raw: Seq<u8>, i: int) -> int {
    if 0 <= i && i + 1 < raw.len() && raw[i] == 10 && raw[i + 1] == 10 {
        2
    } else if 0 <= i && i + 2 < raw.len() && raw[i] == 10 && raw[i + 1] == 13 && raw[i + 2] == 10 {
        3
    } else {
        0
    }
}

/// The end of the first blank line from `i` on, or the end of the input without one.
pub open spec fn block_end(raw: Seq<u8>, i: int) -> int
    decreases raw.len() - i,
{
    if i >= raw.len() {
        raw.len() as int
    } else if blank_at(raw, i) > 0 {
        i + blank_at(raw, i)
    } else {
        block_end(raw, i + 1)
    }
}

/// The header block: what ends with the first blank line.
pub open spec fn block_of(raw: Seq<u8>) -> Seq<u8> {
    raw.take(block_end(raw, 0))
}

/// Where a block ends.
pub proof fn lemma_block_end(raw: Seq<u8>, i: int)
    requires
        0 <= i <= raw.len(),
    ensures
        i <= block_end(raw, i) <= raw.len(),
    decreases raw.len() - i,
{
    if i < raw.len() && blank_at(raw, i) == 0 {
        lemma_block_end(raw, i + 1);
    }
}

/// Extract the header block (bytes up to and including the first blank line) from a
/// raw message. Handles both `\n\n` and `\r\n\r\n` separators. If no blank line is found
/// the whole input is returned (a header-only file).
pub fn header_block(raw: &[u8]) -> (r: &[u8])
    ensures
        r@ == block_of(raw@),
{
    let n: usize = raw.len();
    let mut i: usize = 0;
    while i < n
        invariant
            n == raw@.len(),
            i <= n,
            block_end(raw@, 0) == block_end(raw@, i as int),
        decreases n - i,
    {
        if raw[i] == 10 {
            if n - i > 1 && raw[i + 1] == 10 {
                assert(raw@.subrange(0, i + 2) =~= block_of(raw@));
                return vstd::slice::slice_subrange(raw, 0, i + 2);
            }
            if n - i > 2 && raw[i + 1] == 13 && raw[i + 2] == 10 {
                assert(raw@.subrange(0, i + 3) =~= block_of(raw@));
                return vstd::slice::slice_subrange(raw, 0, i + 3);
            }
        }
        i += 1;
    }
    assert(block_of(raw@) =~= raw@);
    raw
}

/// The input holds a blank line that starts at `i` or later.
pub open spec fn has_blank(raw: Seq<u8>, i: int) -> bool {
    exists|k: int| i <= k && #[trigger] blank_at(raw, k) > 0
}

/// Once the blank line has been read, more of the message does not change its header
/// block, so a prefix with a blank line is all that is needed.
pub proof fn law_prefix_suffices(raw: Seq<u8>, more: Seq<u8>)
    requires
        has_blank(raw, 0),
    ensures
        block_of(raw + more) == block_of(raw),
{
    lemma_prefix_end(raw, more, 0);
    lemma_block_end(raw, 0);
    assert(block_of(raw + more) =~= block_of(raw));
}

proof fn lemma_prefix_end(raw: Seq<u8>, more: Seq<u8>, i: int)
    requires
        has_blank(raw, i),
        0 <= i,
    ensures
        block_end(raw + more, i) == block_end(raw, i),
    decreases raw.len() - i,
{
    let k = choose|k: int| i <= k && #[trigger] blank_at(raw, k) > 0;
    let whole = raw + more;
    if blank_at(raw, i) > 0 {
        assert(blank_at(whole, i) == blank_at(raw, i));
    } else {
        assert(i < k && k + 1 < raw.len());
        assert(blank_at(whole, i) == blank_at(raw, i));
        assert(has_blank(raw, i + 1));
        lemma_prefix_end(raw, more, i + 1);
    }
}

/// A block shorter than the input ends with a blank line.
pub proof fn law_short_block_is_complete(raw: Seq<u8>)
    requires
        block_of(raw).len() < raw.len(),
    ensures
        has_blank(raw, 0),
{
    lemma_block_end(raw, 0);
    lemma_short(raw, 0);
}

proof fn lemma_short(raw: Seq<u8>, i: int)
    requires
        0 <= i,
        block_end(raw, i) < raw.len(),
    ensures
        has_blank(raw, i),
    decreases raw.len() - i,
{
    if i < raw.len() {
        if blank_at(raw, i) > 0 {
        } else {
            lemma_short(raw, i + 1);
            let k = choose|k: int| i + 1 <= k && #[trigger] blank_at(raw, k) > 0;
            assert(i <= k && blank_at(raw, k) > 0);
        }
    }
}

/// Read at most this many bytes when hunting for the header/body boundary. A message with
/// a larger header block still parses from the truncated prefix.
pub const HEADER_READ_CAP: usize = 262144;

/// Whether enough of a message has been read: the blank line that ends the headers lies
/// behind, or the cap is reached.
pub fn prefix_is_enough(buf: &[u8]) -> (r: bool)
    ensures
        r == (block_of(buf@).len() < buf@.len() || buf@.len() >= HEADER_READ_CAP),
{
    header_block(buf).len() < buf.len() || buf.len() >= HEADER_READ_CAP
}

// ---- what the parser reads ----

/// The text headers of a message, as the parser gives them.
#[derive(Debug, Clone, PartialEq, Eq)]
pub struct HeaderTexts {
    /// The raw `List-Id`.
    pub list_id: Option<String>,
    pub subject: Option<String>,
    pub message_id: Option<String>,
    /// The texts of `Delivered-To`.
    pub delivered_to: Option<Vec<String>>,
    /// Whether there is a `List-Unsubscribe`.
    pub list_unsubscribe: bool,
    /// Whether there is a `List-Post`.
    pub list_post: bool,
}

/// The view of [`HeaderTexts`].
#[verifier::ext_equal]
pub ghost struct TextsView {
    pub list_id: Option<Seq<char>>,
    pub subject: Option<Seq<char>>,
    pub message_id: Option<Seq<char>>,
    pub delivered_to: Option<Seq<Seq<char>>>,
    pub list_unsubscribe: bool,
    pub list_post: bool,
}

impl View for HeaderTexts {
    type V = TextsView;

    open spec fn view(&self) -> TextsView {
        TextsView {
            list_id: opt_text(self.list_id),
            subject: opt_text(self.subject),
            message_id: opt_text(self.message_id),
            delivered_to: match self.delivered_to {
                Some(v) => Some(texts(v@)),
                None => None,
            },
            list_unsubscribe: self.list_unsubscribe,
            list_post: self.list_post,
        }
    }
}

/// The address headers of a message, as the parser gives them.
#[derive(Debug, Clone, PartialEq, Eq)]
pub struct HeaderAddresses {
    /// Display name of the first `From` address.
    pub from_name: Option<String>,
    /// The first `From` address.
    pub from_address: Option<String>,
    /// The `To` addresses, if there is such a header; an entry may lack an address.
    pub to: Option<Vec<Option<String>>>,
    /// The `Cc` addresses, if there is such a header; an entry may lack an address.
    pub cc: Option<Vec<Option<String>>>,
}

/// The view of [`HeaderAddresses`].
#[verifier::ext_equal]
pub ghost struct AddressesView {
    pub from_name: Option<Seq<char>>,
    pub from_address: Option<Seq<char>>,
    pub to: Option<Seq<Option<Seq<char>>>>,
    pub cc: Option<Seq<Option<Seq<char>>>>,
}

/// The view of an optional list of addresses.
pub open spec fn address_list(list: Option<Vec<Option<String>>>) -> Option<
    Seq<Option<Seq<char>>>,
> {
    match list {
        Some(v) => Some(opt_texts(v@)),
        None => None,
    }
}

impl View for HeaderAddresses {
    type V = AddressesView;

    open spec fn view(&self) -> AddressesView {
        AddressesView {
            from_name: opt_text(self.from_name),
            from_address: opt_text(self.from_address),
            to: address_list(self.to),
            cc: address_list(self.cc),
        }
    }
}

/// The text headers that `mail-parser` reads from a header block; none if it finds no
/// header at all.
pub uninterp spec fn texts_in(block: Seq<u8>) -> Option<TextsView>;

/// The address headers that `mail-parser` reads from a header block; none if it finds no
/// header at all.
pub uninterp spec fn addresses_in(block: Seq<u8>) -> Option<AddressesView>;

/// `MessageParser::parse_headers` with the minimal headers and message ids registered, and
/// the list headers and `Delivered-To` as raw, then `Message::header_raw`, `subject`,
/// `message_id`, `header` and `HeaderValue::as_text_list`. The claim is that the result is
/// a function of the block alone. The parser stops at the first line of whitespace and
/// decodes no body. It keeps offsets and counts in 32 bits, signed ones among them, so the
/// block must be no longer than those can tell.
#[verifier::external_body]
fn read_texts(block: &[u8]) -> (r: Option<HeaderTexts>)
    requires
        block@.len() <= i32::MAX,
    ensures
        match r {
            Some(t) => texts_in(block@) == Some(t@),
            None => texts_in(block@) is None,
        },
{
    let parser = MessageParser::new().with_minimal_headers().with_message_ids();
    let parser = parser.header_raw("List-Id").header_raw("List-Unsubscribe");
    let parser = parser.header_raw("List-Post").header_raw("Delivered-To");
    let message = parser.parse_headers(block)?;
    let delivered_to = message.header("Delivered-To").and_then(HeaderValue::as_text_list);
    Some(
        HeaderTexts {
            list_id: message.header_raw("List-Id").map(str::to_string),
            subject: message.subject().map(str::to_string),
            message_id: message.message_id().map(str::to_string),
            delivered_to: delivered_to.map(|l| l.iter().map(|t| t.to_string()).collect()),
            list_unsubscribe: message.header("List-Unsubscribe").is_some(),
            list_post: message.header("List-Post").is_some(),
        },
    )
}

/// `MessageParser::parse_headers` with the same headers registered, then `Message::from`,
/// `to` and `cc`, `Address::first` and `iter`, and `Addr::name` and `address`. The claim is
/// that the result is a function of the block alone, and that there is one exactly where
/// [`read_texts`] has one, since both parse alike. The bound on the block is the one given
/// there.
#[verifier::external_body]
fn read_addresses(block: &[u8]) -> (r: Option<HeaderAddresses>)
    requires
        block@.len() <= i32::MAX,
    ensures
        match r {
            Some(a) => addresses_in(block@) == Some(a@),
            None => addresses_in(block@) is None,
        },
        r is Some <==> texts_in(block@) is Some,
{
    let parser = MessageParser::new().with_minimal_headers().with_message_ids();
    let parser = parser.header_raw("List-Id").header_raw("List-Unsubscribe");
    let parser = parser.header_raw("List-Post").header_raw("Delivered-To");
    let message = parser.parse_headers(block)?;
    let from = message.from().and_then(Address::first);
    let list = |a: &Address| a.iter().map(|x| x.address().map(str::to_string)).collect();
    Some(
        HeaderAddresses {
            from_name: from.and_then(Addr::name).map(str::to_string),
            from_address: from.and_then(Addr::address).map(str::to_string),
            to: message.to().map(list),
            cc: message.cc().map(list),
        },
    )
}

// ---- what is made of it ----

/// A text trimmed and lowercased.
pub open spec fn tidied(s: Seq<char>) -> Seq<char> {
    lowercased(trim(s))
}

/// The identifier in a `List-Id` value, as it is written: what stands inside the last angle
/// brackets, or all of it without them; trimmed.
pub open spec fn list_part(raw: Seq<char>) -> Seq<char> {
    match (rfind(raw, seq!['<']), rfind(raw, seq!['>'])) {
        (Some(a), Some(b)) => if a < b {
            trim(raw.subrange(a + 1, b))
        } else {
            trim(trim(raw))
        },
        _ => trim(trim(raw)),
    }
}

/// The identifier in a `List-Id` value, lowercased.
pub open spec fn list_identifier(raw: Seq<char>) -> Seq<char> {
    lowercased(list_part(raw))
}

/// Normalize a `List-Id` header value to its bare identifier: the text inside the last
/// `<...>` if present, otherwise the whole trimmed value; lowercased.
pub fn normalize_list_id(raw: &str) -> (r: String)
    ensures
        r@ == list_identifier(raw@),
        is_ascii(list_part(raw@)) ==> r@ == ascii_lower(list_part(raw@)),
{
    let chars = to_chars(raw);
    let open = ['<'];
    let close = ['>'];
    assert(open@ =~= seq!['<']);
    assert(close@ =~= seq!['>']);
    proof {
        lemma_rfind(raw@, seq!['<']);
        lemma_rfind(raw@, seq!['>']);
    }
    let inner: &[char] = match (find_last(&chars, &open), find_last(&chars, &close)) {
        (Some(a), Some(b)) => {
            if a < b {
                slice(&chars, a + 1, b)
            } else {
                trimmed(&chars)
            }
        },
        _ => trimmed(&chars),
    };
    to_lowercase(&from_chars(trimmed(inner)))
}

/// The addresses that are there, in order.
pub open spec fn present(list: Seq<Option<Seq<char>>>) -> Seq<Seq<char>>
    decreases list.len(),
{
    if list.len() == 0 {
        Seq::empty()
    } else {
        let some = present(list.drop_last());
        match list.last() {
            Some(a) => some.push(a),
            None => some,
        }
    }
}

/// The addresses of a list that is there.
pub open spec fn all_present(list: Option<Seq<Option<Seq<char>>>>) -> Seq<Seq<char>> {
    match list {
        Some(l) => present(l),
        None => Seq::empty(),
    }
}

/// The first text of a list that is there.
pub open spec fn first_present(list: Option<Seq<Seq<char>>>) -> Seq<Seq<char>> {
    match list {
        Some(l) => if l.len() > 0 {
            seq![l[0]]
        } else {
            Seq::empty()
        },
        None => Seq::empty(),
    }
}

/// The texts that tidying makes of some texts.
pub open spec fn all_tidied(list: Seq<Seq<char>>) -> Set<Seq<char>> {
    list.map_values(|x: Seq<char>| tidied(x)).to_set()
}

/// `f` of an optional text.
pub open spec fn mapped(s: Option<Seq<char>>, f: spec_fn(Seq<char>) -> Seq<char>) -> Option<
    Seq<char>,
> {
    match s {
        Some(x) => Some(f(x)),
        None => None,
    }
}

/// An optional text, none if it is empty.
pub open spec fn unless_empty(s: Option<Seq<char>>) -> Option<Seq<char>> {
    match s {
        Some(x) => if x.len() > 0 {
            Some(x)
        } else {
            None
        },
        None => None,
    }
}

/// A Message-ID as it is written, trimmed and with its angle brackets stripped.
pub open spec fn id_part(raw: Seq<char>) -> Seq<char> {
    trim_set(trim(raw), seq!['<', '>'])
}

/// The Message-ID: trimmed, angle brackets stripped, lowercased, and none if that leaves
/// nothing.
pub open spec fn bare_id(raw: Option<Seq<char>>) -> Option<Seq<char>> {
    unless_empty(mapped(raw, |m: Seq<char>| lowercased(id_part(m))))
}

/// The recipients named in To, Cc and Delivered-To.
pub open spec fn recipients_named(t: TextsView, a: AddressesView) -> Seq<Seq<char>> {
    all_present(a.to) + all_present(a.cc) + first_present(t.delivered_to)
}

/// `h` is what the headers of a message say: every field as described at
/// [`MessageHeaders`], the recipients in ascending order, each once.
pub open spec fn gleaned(t: TextsView, a: AddressesView, h: HeadersView) -> bool {
    &&& h.list_id == mapped(t.list_id, |s: Seq<char>| list_identifier(s))
    &&& h.from_addr == mapped(a.from_address, |s: Seq<char>| tidied(s))
    &&& h.from_name == unless_empty(mapped(a.from_name, |s: Seq<char>| trim(s)))
    &&& ascending(h.recipients)
    &&& h.recipients.to_set() == all_tidied(recipients_named(t, a))
    &&& h.subject == mapped(t.subject, |s: Seq<char>| trim(s))
    &&& h.is_list_mail == (t.list_unsubscribe || t.list_post)
}

/// On ASCII text, lowercasing is that of each character.
pub open spec fn plainly(s: Seq<char>) -> bool {
    is_ascii(s) ==> lowercased(s) == ascii_lower(s)
}

/// The same for each of some texts, trimmed.
pub open spec fn all_plainly(list: Seq<Seq<char>>) -> bool {
    forall|i: int| 0 <= i < list.len() ==> plainly(trim(#[trigger] list[i]))
}

/// What of a message is ASCII is lowercased character by character: its list identifier,
/// its addresses and its Message-ID.
pub open spec fn gleaned_plainly(t: TextsView, a: AddressesView) -> bool {
    &&& t.list_id matches Some(s) ==> plainly(list_part(s))
    &&& a.from_address matches Some(s) ==> plainly(trim(s))
    &&& all_plainly(recipients_named(t, a))
    &&& t.message_id matches Some(s) ==> plainly(id_part(s))
}

/// `s` trimmed and lowercased.
fn tidy(s: &str) -> (r: String)
    ensures
        r@ == tidied(s@),
        plainly(trim(s@)),
{
    to_lowercase(&from_chars(trimmed(&to_chars(s))))
}

/// One more text.
proof fn lemma_tidied_push(list: Seq<Seq<char>>, x: Seq<char>)
    ensures
        all_tidied(list.push(x)) == all_tidied(list).insert(tidied(x)),
{
    let f = |y: Seq<char>| tidied(y);
    let some = list.map_values(f);
    assert(list.push(x).map_values(f) =~= some.push(tidied(x)));
    lemma_set_push(some, tidied(x));
    assert(all_tidied(list.push(x)) == list.push(x).map_values(f).to_set());
    assert(all_tidied(list) == some.to_set());
}

proof fn lemma_set_push(list: Seq<Seq<char>>, x: Seq<char>)
    ensures
        list.push(x).to_set() == list.to_set().insert(x),
{
    broadcast use vstd::seq_lib::group_seq_properties;

    assert(list.push(x).to_set() =~= list.to_set().insert(x));
}

/// No texts.
proof fn lemma_tidied_none()
    ensures
        all_tidied(Seq::empty()) == Set::<Seq<char>>::empty(),
{
    let f = |y: Seq<char>| tidied(y);
    let none = Seq::<Seq<char>>::empty();
    assert(none.map_values(f) =~= none);
    assert(none.to_set() =~= Set::empty());
}

/// The texts of two lists.
proof fn lemma_tidied_concat(a: Seq<Seq<char>>, b: Seq<Seq<char>>)
    ensures
        all_tidied(a + b) == all_tidied(a).union(all_tidied(b)),
    decreases b.len(),
{
    if b.len() > 0 {
        let rest = b.drop_last();
        lemma_tidied_concat(a, rest);
        lemma_tidied_push(a + rest, b.last());
        lemma_tidied_push(rest, b.last());
        assert(rest.push(b.last()) =~= b);
        assert((a + rest).push(b.last()) =~= a + b);
        assert(all_tidied(a + b) =~= all_tidied(a).union(all_tidied(b)));
    } else {
        assert(a + b =~= a);
        assert(b =~= Seq::empty());
        lemma_tidied_none();
        assert(all_tidied(a) =~= all_tidied(a).union(Set::empty()));
    }
}

/// Add the addresses that are there to a set, tidied.
fn add_present(set: &mut TextSet, found: &Option<Vec<Option<String>>>)
    ensures
        final(set)@ == old(set)@.union(all_tidied(all_present(address_list(*found)))),
        all_plainly(all_present(address_list(*found))),
{
    proof {
        lemma_tidied_none();
    }
    let list: &Vec<Option<String>> = match found {
        Some(l) => l,
        None => {
            assert(set@ =~= set@.union(Set::empty()));
            return;
        },
    };
    let ghost all = opt_texts(list@);
    let ghost before = set@;
    assert(all.take(0) =~= Seq::empty());
    assert(set@ =~= before.union(all_tidied(present(all.take(0)))));
    for i in 0..list.len()
        invariant
            all == opt_texts(list@),
            set@ == before.union(all_tidied(present(all.take(i as int)))),
            all_plainly(present(all.take(i as int))),
    {
        let ghost some = present(all.take(i as int));
        assert(all.take(i + 1).drop_last() =~= all.take(i as int));
        assert(all.take(i + 1).last() == opt_text(list@[i as int]));
        if let Some(a) = &list[i] {
            set.insert(tidy(a));
            proof {
                lemma_tidied_push(some, a@);
                assert(set@ =~= before.union(all_tidied(present(all.take(i + 1)))));
            }
        }
    }
    assert(all.take(list@.len() as int) =~= all);
}

/// The texts of a set, ascending.
fn listed(set: &TextSet) -> (r: Vec<String>)
    ensures
        ascending(texts(r@)),
        texts(r@).to_set() == set@,
{
    let mut r: Vec<String> = Vec::new();
    let n: usize = set.len();
    let ghost items = set.items();
    for i in 0..n
        invariant
            items == set.items(),
            n == items.len(),
            texts(r@) == items.take(i as int),
    {
        let ghost was = r@;
        r.push(set.item_at(i).clone());
        assert(texts(r@) =~= texts(was).push(items[i as int]));
        assert(items.take(i + 1) =~= items.take(i as int).push(items[i as int]));
    }
    assert(items.take(n as int) =~= items);
    r
}

/// The clustering fields that the headers of a message give, and its Message-ID.
pub fn glean(t: &HeaderTexts, a: &HeaderAddresses) -> (r: (MessageHeaders, Option<String>))
    ensures
        gleaned(t@, a@, r.0@),
        opt_text(r.1) == bare_id(t@.message_id),
        gleaned_plainly(t@, a@),
{
    let list_id: Option<String> = match &t.list_id {
        Some(s) => Some(normalize_list_id(s)),
        None => None,
    };
    let from_addr: Option<String> = match &a.from_address {
        Some(s) => Some(tidy(s)),
        None => None,
    };
    let from_name: Option<String> = match &a.from_name {
        Some(s) => {
            let chars = to_chars(s);
            let name = trimmed(&chars);
            if name.len() > 0 {
                Some(from_chars(name))
            } else {
                None
            }
        },
        None => None,
    };
    let mut set = TextSet::new();
    add_present(&mut set, &a.to);
    add_present(&mut set, &a.cc);
    if let Some(l) = &t.delivered_to {
        if l.len() > 0 {
            set.insert(tidy(&l[0]));
        }
    }
    let recipients = listed(&set);
    proof {
        let to = all_present(a@.to);
        let cc = all_present(a@.cc);
        let del = first_present(t@.delivered_to);
        lemma_tidied_none();
        if t.delivered_to is Some && t.delivered_to->0@.len() > 0 {
            let l = t.delivered_to->0@;
            assert(texts(l)[0] == l[0]@);
            assert(del =~= Seq::empty().push(l[0]@));
            lemma_tidied_push(Seq::empty(), l[0]@);
            assert(set@ =~= all_tidied(to).union(all_tidied(cc)).union(all_tidied(del)));
        } else {
            assert(set@ =~= all_tidied(to).union(all_tidied(cc)).union(all_tidied(del)));
        }
        lemma_tidied_concat(to, cc);
        lemma_tidied_concat(to + cc, del);
        assert(all_plainly(recipients_named(t@, a@)));
    }
    let subject: Option<String> = match &t.subject {
        Some(s) => Some(from_chars(trimmed(&to_chars(s)))),
        None => None,
    };
    let is_list_mail = t.list_unsubscribe || t.list_post;
    let message_id: Option<String> = match &t.message_id {
        Some(s) => {
            let chars = to_chars(s);
            let brackets = ['<', '>'];
            assert(brackets@ =~= seq!['<', '>']);
            let id = to_lowercase(&from_chars(trimmed_set(trimmed(&chars), &brackets)));
            if to_chars(&id).len() > 0 {
                Some(id)
            } else {
                None
            }
        },
        None => None,
    };
    let headers = MessageHeaders {
        list_id,
        from_addr,
        from_name,
        recipients,
        subject,
        is_list_mail,
    };
    (headers, message_id)
}

/// `h` and `id` are what the header block of a message gives: what is gleaned from the
/// headers that the parser finds, and nothing if it finds none.
pub open spec fn reads_as(raw: Seq<u8>, h: HeadersView, id: Option<Seq<char>>) -> bool {
    match texts_in(block_of(raw)) {
        Some(t) => {
            &&& addresses_in(block_of(raw)) matches Some(a) && gleaned(t, a, h)
            &&& id == bare_id(t.message_id)
        },
        None => h == HeadersView::none() && id is None,
    }
}

/// What of the headers of a message is ASCII is lowercased character by character.
pub open spec fn reads_plainly(raw: Seq<u8>) -> bool {
    match (texts_in(block_of(raw)), addresses_in(block_of(raw))) {
        (Some(t), Some(a)) => gleaned_plainly(t, a),
        _ => true,
    }
}

/// Parse the header-relevant fields from raw message bytes. Returns `(headers, message_id)`.
pub fn parse(raw: &[u8]) -> (r: (MessageHeaders, Option<String>))
    requires
        block_of(raw@).len() <= i32::MAX,
    ensures
        reads_as(raw@, r.0@, opt_text(r.1)),
        reads_plainly(raw@),
{
    let block = header_block(raw);
    match (read_texts(block), read_addresses(block)) {
        (Some(t), Some(a)) => glean(&t, &a),
        _ => (MessageHeaders::default(), None),
    }
}

} // verus!
