//! Parsing and construction of mbsync *native-scheme* Maildir filenames.
//!
//! A native-scheme filename is a unique base, `,U=` with a UID, and an info section, as in
//! `1726376999.528878_10.framework,U=10:2,S`. The `,U=<uid>` segment is how mbsync binds
//! the local file to a server IMAP UID. Duplicating it into another folder is what
//! corrupts sync. So a file made for a moved message gets a fresh unique base and **no**
//! `,U=` segment (see [`MaildirName::new_local`]).
//!
//! The info section is `:2,<flags>` where flags are single letters (e.g. `S` seen,
//! `R` replied, `F` flagged, `P` passed, `D` draft, `T` trashed).

pub mod laws;

use vstd::prelude::*;

use crate::number::{
    all_digits, decimal, law_parse_decimal, lemma_decimal_value, parse_u32, parse_uint,
    push_decimal,
};
use crate::text::{
    begins_with, find, find_first, find_last, from_chars, has_text, lemma_find_is, lemma_rfind,
    occurs_at, rfind, slice, starts_with, to_chars,
};

verus! {

/// A parsed Maildir filename, split into its three logical parts.
#[derive(Debug, Clone, PartialEq, Eq)]
pub struct MaildirName {
    /// The unique base (everything before `,U=` or the info separator `:`).
    pub base: String,
    /// The mbsync native UID, if the `,U=<n>` segment was present.
    pub uid: Option<u32>,
    /// The info flags after `:2,` (e.g. "S", "PS"). Empty if no/blank info section.
    pub flags: String,
}

/// The view of a [`MaildirName`].
#[verifier::ext_equal]
pub ghost struct NameView {
    pub base: Seq<char>,
    pub uid: Option<u32>,
    pub flags: Seq<char>,
}

impl View for MaildirName {
    type V = NameView;

    open spec fn view(&self) -> NameView {
        NameView { base: self.base@, uid: self.uid, flags: self.flags@ }
    }
}

/// What precedes the info section: all of the name where there is none. The section
/// starts at the first colon.
pub open spec fn stem(name: Seq<char>) -> Seq<char> {
    match find(name, seq![':']) {
        Some(i) => name.take(i),
        None => name,
    }
}

/// The flags: what follows the version `2,` of the info section. A section of any other
/// version holds no flags that are known here.
pub open spec fn flags_of(name: Seq<char>) -> Seq<char> {
    match find(name, seq![':']) {
        Some(i) => {
            let info = name.skip(i + 1);
            if starts_with(info, seq!['2', ',']) {
                info.skip(2)
            } else {
                Seq::empty()
            }
        },
        None => Seq::empty(),
    }
}

/// The mark of the UID segment.
pub open spec fn uid_mark() -> Seq<char> {
    seq![',', 'U', '=']
}

/// The UID that a stem ends in: the number after its last `,U=`. None without that mark,
/// or if what follows is no number.
pub open spec fn uid_of(stem: Seq<char>) -> Option<u32> {
    match rfind(stem, uid_mark()) {
        Some(p) => match parse_uint(stem.skip(p + 3), u32::MAX as nat) {
            Some(n) => Some(n as u32),
            None => None,
        },
        None => None,
    }
}

/// The base of a stem: what precedes its UID segment.
pub open spec fn base_of(stem: Seq<char>) -> Seq<char> {
    if uid_of(stem) is Some {
        stem.take(rfind(stem, uid_mark())->0)
    } else {
        stem
    }
}

/// The parts of a filename.
pub open spec fn parsed(name: Seq<char>) -> NameView {
    NameView { base: base_of(stem(name)), uid: uid_of(stem(name)), flags: flags_of(name) }
}

impl NameView {
    /// The stem that the parts make.
    pub open spec fn stem(self) -> Seq<char> {
        match self.uid {
            Some(uid) => self.base + uid_mark() + decimal(uid as nat),
            None => self.base,
        }
    }

    /// The filename that the parts make.
    pub open spec fn rendered(self) -> Seq<char> {
        self.stem() + seq![':', '2', ','] + self.flags
    }
}

/// The base of a fresh local name.
pub open spec fn local_base(secs: u64, micros: u32, seq_no: u64, host: Seq<char>) -> Seq<char> {
    decimal(secs as nat) + seq!['.'] + decimal(micros as nat) + seq!['_'] + decimal(seq_no as nat)
        + seq!['.'] + host
}

impl MaildirName {
    /// Parse a filename as written on disk. This never fails: anything unrecognized is
    /// treated as a bare base with no UID and no flags, so odd files are still tracked
    /// (and therefore counted for message-conservation) rather than silently dropped.
    pub fn parse(name: &str) -> (r: MaildirName)
        ensures
            r@ == parsed(name@),
    {
        let chars = to_chars(name);
        let colon = [':'];
        assert(colon@ =~= seq![':']);
        // The unique/UID part may not contain a colon, and flags never do, so the first
        // colon is unambiguous.
        let n: usize = chars.len();
        let found = find_first(&chars, &colon);
        let end: usize = match found {
            Some(i) => i,
            None => n,
        };
        let left = slice(&chars, 0, end);
        assert(left@ =~= stem(name@));
        let flags = match found {
            Some(i) => {
                let info = slice(&chars, i + 1, n);
                assert(info@ =~= name@.skip(i + 1));
                let version = ['2', ','];
                assert(version@ =~= seq!['2', ',']);
                if begins_with(info, &version) {
                    let rest = slice(info, 2, info.len());
                    assert(rest@ =~= info@.skip(2));
                    from_chars(rest)
                } else {
                    String::new()
                }
            },
            None => String::new(),
        };
        assert(flags@ =~= flags_of(name@));
        let mark = [',', 'U', '='];
        assert(mark@ =~= uid_mark());
        let (base, uid): (String, Option<u32>) = match find_last(left, &mark) {
            Some(p) => {
                let digits = slice(left, p + 3, left.len());
                assert(digits@ =~= left@.skip(p + 3));
                match parse_u32(digits) {
                    Some(u) => {
                        let front = slice(left, 0, p);
                        assert(front@ =~= left@.take(p as int));
                        (from_chars(front), Some(u))
                    },
                    // `,U=` present but not followed by a clean number: keep it in base.
                    None => (from_chars(left), None),
                }
            },
            None => (from_chars(left), None),
        };
        MaildirName { base, uid, flags }
    }

    /// Build a *fresh local* filename for a moved message: a brand-new unique base,
    /// **no** `,U=` segment (so mbsync assigns a new server UID on push), preserving the
    /// original flags.
    pub fn new_local(secs: u64, micros: u32, seq: u64, host: &str, flags: &str) -> (r: MaildirName)
        ensures
            r@ == (NameView {
                base: local_base(secs, micros, seq, host@),
                uid: None,
                flags: flags@,
            }),
    {
        let mut base = String::new();
        push_decimal(&mut base, secs);
        base.push('.');
        push_decimal(&mut base, micros as u64);
        base.push('_');
        push_decimal(&mut base, seq);
        base.push('.');
        base.push_str(host);
        assert(base@ =~= local_base(secs, micros, seq, host@));
        MaildirName { base, uid: None, flags: flags.to_string() }
    }

    /// Render back to an on-disk filename.
    pub fn to_filename(&self) -> (r: String)
        ensures
            r@ == self@.rendered(),
    {
        let mut s = self.base.clone();
        if let Some(uid) = self.uid {
            s.push(',');
            s.push('U');
            s.push('=');
            push_decimal(&mut s, uid as u64);
        }
        assert(s@ =~= self@.stem());
        // Always emit the info section so the file lands in a "cur"-style named form;
        // an empty-flags message is still `:2,`.
        s.push(':');
        s.push('2');
        s.push(',');
        s.push_str(&self.flags);
        assert(s@ =~= self@.rendered());
        s
    }

    /// True if this file carries an mbsync UID (i.e. it is server-synced, not a fresh local).
    pub fn has_uid(&self) -> (r: bool)
        ensures
            r == self@.uid is Some,
    {
        self.uid.is_some()
    }
}

// ---- laws ----

/// The first colon of a rendered name is the one of its info section.
proof fn lemma_rendered_colon(v: NameView)
    requires
        !v.stem().contains(':'),
    ensures
        find(v.rendered(), seq![':']) == Some(v.stem().len() as int),
        stem(v.rendered()) == v.stem(),
        flags_of(v.rendered()) == v.flags,
{
    let s = v.rendered();
    let n = v.stem().len() as int;
    assert(s.subrange(n, n + 1) =~= seq![':']);
    assert forall|k: int| 0 <= k < n implies !occurs_at(s, seq![':'], k) by {
        if occurs_at(s, seq![':'], k) {
            assert(s.subrange(k, k + 1)[0] == ':');
            assert(v.stem()[k] == ':');
        }
    }
    lemma_find_is(s, seq![':'], n);
    assert(s.take(n) =~= v.stem());
    let info = s.skip(n + 1);
    assert(info =~= seq!['2', ','] + v.flags);
    assert(info.subrange(0, 2) =~= seq!['2', ',']);
    assert(info.skip(2) =~= v.flags);
}

/// A decimal number holds digits alone.
pub proof fn lemma_decimal_plain(n: nat, c: char)
    requires
        !('0' <= c && c <= '9'),
    ensures
        !decimal(n).contains(c),
{
    lemma_decimal_value(n);
    if decimal(n).contains(c) {
        let i = decimal(n).index_of(c);
        assert(decimal(n)[i] == c);
        assert(all_digits(decimal(n)));
    }
}

/// The UID segment that a stem was given is the one found in it.
proof fn lemma_uid_found(base: Seq<char>, uid: u32)
    ensures
        uid_of(base + uid_mark() + decimal(uid as nat)) == Some(uid),
        base_of(base + uid_mark() + decimal(uid as nat)) == base,
{
    let digits = decimal(uid as nat);
    let s = base + uid_mark() + digits;
    let p = base.len() as int;
    lemma_decimal_plain(uid as nat, ',');
    assert(s.subrange(p, p + 3) =~= uid_mark());
    assert(occurs_at(s, uid_mark(), p));
    lemma_rfind(s, uid_mark());
    let q = rfind(s, uid_mark())->0;
    assert(q == p) by {
        assert(s.subrange(q, q + 3)[0] == ',');
        assert(s[q] == ',');
        if q > p {
            if q >= p + 3 {
                assert(digits[q - p - 3] == ',');
                assert(digits.contains(','));
            } else {
                assert(s[p + 1] == 'U' && s[p + 2] == '=');
            }
        }
    }
    assert(s.skip(p + 3) =~= digits);
    assert(s.take(p) =~= base);
    law_parse_decimal(uid as nat, u32::MAX as nat);
}

/// Reading back what was written: a rendered name parses into its parts. The base must be
/// free of colons, and must not itself end in a UID segment where the name has no UID.
pub proof fn law_name_round_trip(v: NameView)
    requires
        !v.base.contains(':'),
        v.uid is Some || uid_of(v.base) is None,
    ensures
        parsed(v.rendered()) == v,
{
    match v.uid {
        Some(uid) => {
            lemma_decimal_plain(uid as nat, ':');
            let s = v.stem();
            if s.contains(':') {
                let k = s.index_of(':');
                assert(s[k] == ':');
                if k < v.base.len() {
                    assert(v.base[k] == ':');
                } else if k >= v.base.len() + 3 {
                    assert(decimal(uid as nat)[k - v.base.len() - 3] == ':');
                } else {
                    assert(s[k] == uid_mark()[k - v.base.len()]);
                }
            }
            lemma_uid_found(v.base, uid);
        },
        None => {},
    }
    lemma_rendered_colon(v);
    assert(parsed(v.rendered()) =~= v);
}

/// Nothing in a fresh base but its host part holds a comma.
proof fn lemma_local_comma(secs: u64, micros: u32, seq_no: u64, host: Seq<char>, i: int)
    requires
        0 <= i < local_base(secs, micros, seq_no, host).len(),
        local_base(secs, micros, seq_no, host)[i] == ',',
    ensures
        i >= local_base(secs, micros, seq_no, host).len() - host.len(),
{
    lemma_decimal_plain(secs as nat, ',');
    lemma_decimal_plain(micros as nat, ',');
    lemma_decimal_plain(seq_no as nat, ',');
    let a = decimal(secs as nat);
    let b = decimal(micros as nat);
    let c = decimal(seq_no as nat);
    let s = local_base(secs, micros, seq_no, host);
    if i < s.len() - host.len() {
        if i < a.len() {
            assert(a[i] == ',');
        } else if i == a.len() {
            assert(s[i] == '.');
        } else if i < a.len() + 1 + b.len() {
            assert(b[i - a.len() - 1] == ',');
        } else if i == a.len() + 1 + b.len() {
            assert(s[i] == '_');
        } else if i < a.len() + b.len() + 2 + c.len() {
            assert(c[i - a.len() - b.len() - 2] == ',');
        } else {
            assert(s[i] == '.');
        }
    }
}

/// A fresh base carries no UID segment unless its host does.
proof fn lemma_local_unmarked(secs: u64, micros: u32, seq_no: u64, host: Seq<char>)
    requires
        !has_text(host, uid_mark()),
    ensures
        !has_text(local_base(secs, micros, seq_no, host), uid_mark()),
{
    let s = local_base(secs, micros, seq_no, host);
    let m = s.len() - host.len();
    assert(s.skip(m) =~= host);
    assert forall|i: int| !occurs_at(s, uid_mark(), i) by {
        if occurs_at(s, uid_mark(), i) {
            assert(s.subrange(i, i + 3)[0] == ',');
            lemma_local_comma(secs, micros, seq_no, host, i);
            assert(host.subrange(i - m, i - m + 3) =~= s.subrange(i, i + 3));
            assert(occurs_at(host, uid_mark(), i - m));
        }
    }
}

/// A file made for a moved message carries no UID: whatever the numbers, the name of a
/// fresh local file parses without one and keeps the flags, and `,U=` stands nowhere in
/// it. The host must not hold `,U=` or a colon, and the flags must not start with `U=` or
/// hold `,U=`.
pub proof fn law_fresh_name_has_no_uid(
    secs: u64,
    micros: u32,
    seq_no: u64,
    host: Seq<char>,
    flags: Seq<char>,
)
    requires
        !has_text(host, uid_mark()),
        !host.contains(':'),
        !has_text(seq![','] + flags, uid_mark()),
    ensures
        ({
            let v = NameView {
                base: local_base(secs, micros, seq_no, host),
                uid: None,
                flags,
            };
            &&& parsed(v.rendered()).uid is None
            &&& parsed(v.rendered()).flags == flags
            &&& !has_text(v.rendered(), uid_mark())
        }),
{
    let base = local_base(secs, micros, seq_no, host);
    let v = NameView { base, uid: None, flags };
    lemma_local_unmarked(secs, micros, seq_no, host);
    lemma_rfind(base, uid_mark());
    assert(!base.contains(':')) by {
        if base.contains(':') {
            let k = base.index_of(':');
            assert(base[k] == ':');
            lemma_local_colon(secs, micros, seq_no, host, k);
        }
    }
    law_name_round_trip(v);
    let s = v.rendered();
    let n = base.len() as int;
    assert forall|i: int| !occurs_at(s, uid_mark(), i) by {
        if occurs_at(s, uid_mark(), i) {
            let w = s.subrange(i, i + 3);
            assert(w[0] == ',' && w[1] == 'U' && w[2] == '=');
            assert(s[i] == ',' && s[i + 1] == 'U' && s[i + 2] == '=');
            if i + 3 <= n {
                assert(base.subrange(i, i + 3) =~= w);
                assert(occurs_at(base, uid_mark(), i));
            } else if i <= n + 1 {
                assert(s[n] == ':' && s[n + 1] == '2');
            } else {
                let tail = seq![','] + flags;
                assert(tail.subrange(i - n - 2, i - n - 2 + 3) =~= w);
                assert(occurs_at(tail, uid_mark(), i - n - 2));
            }
        }
    }
}

/// Nothing in a fresh base but its host part holds a colon.
proof fn lemma_local_colon(secs: u64, micros: u32, seq_no: u64, host: Seq<char>, i: int)
    requires
        0 <= i < local_base(secs, micros, seq_no, host).len(),
        local_base(secs, micros, seq_no, host)[i] == ':',
    ensures
        host.contains(':'),
{
    lemma_decimal_plain(secs as nat, ':');
    lemma_decimal_plain(micros as nat, ':');
    lemma_decimal_plain(seq_no as nat, ':');
    let a = decimal(secs as nat);
    let b = decimal(micros as nat);
    let c = decimal(seq_no as nat);
    let s = local_base(secs, micros, seq_no, host);
    let m = s.len() - host.len();
    if i < m {
        if i < a.len() {
            assert(a[i] == ':');
        } else if i == a.len() {
            assert(s[i] == '.');
        } else if i < a.len() + 1 + b.len() {
            assert(b[i - a.len() - 1] == ':');
        } else if i == a.len() + 1 + b.len() {
            assert(s[i] == '_');
        } else if i < a.len() + b.len() + 2 + c.len() {
            assert(c[i - a.len() - b.len() - 2] == ':');
        } else {
            assert(s[i] == '.');
        }
    } else {
        assert(host[i - m] == ':');
    }
}

} // verus!
