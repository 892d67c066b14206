//! Turning keys (list-ids, domains, addresses) into folder slugs: short, lowercase,
//! hyphenated (`la-ruby`, `dead-snakes`).

pub mod laws;

use vstd::prelude::*;

use crate::text::{
    before_first, chars_eq, first_piece, from_chars, is_alnum, is_digit, lower, nonempty, split,
    split_chars, str_eq, to_chars, to_lower, trim_set, trimmed_set, views,
};

verus! {

// ---- freemail ----

/// Domains where the domain itself is not a useful sorting key, so mail is clustered by
/// the full sender address (person) instead.
pub open spec fn freemail() -> Seq<Seq<char>> {
    seq![
        "gmail.com"@,
        "googlemail.com"@,
        "yahoo.com"@,
        "ymail.com"@,
        "hotmail.com"@,
        "outlook.com"@,
        "live.com"@,
        "msn.com"@,
        "aol.com"@,
        "icloud.com"@,
        "me.com"@,
        "mac.com"@,
        "proton.me"@,
        "protonmail.com"@,
        "gmx.com"@,
        "fastmail.com"@,
    ]
}

/// Whether `domain` is one of the freemail domains.
pub fn is_freemail(domain: &str) -> (r: bool)
    ensures
        r == freemail().contains(domain@),
{
    let all: Vec<&str> = vec![
        "gmail.com",
        "googlemail.com",
        "yahoo.com",
        "ymail.com",
        "hotmail.com",
        "outlook.com",
        "live.com",
        "msn.com",
        "aol.com",
        "icloud.com",
        "me.com",
        "mac.com",
        "proton.me",
        "protonmail.com",
        "gmx.com",
        "fastmail.com",
    ];
    let ghost names = Seq::new(all@.len(), |i: int| all@[i]@);
    assert(names =~= freemail());
    for i in 0..all.len()
        invariant
            names == Seq::new(all@.len(), |i: int| all@[i]@),
            names == freemail(),
            forall|j: int| 0 <= j < i ==> names[j] != domain@,
    {
        if str_eq(all[i], domain) {
            assert(names[i as int] == domain@);
            return true;
        }
    }
    false
}

// ---- slugs ----

/// `s` in lowercase, each run of characters other than letters and digits made a single
/// hyphen.
pub open spec fn hyphenated(s: Seq<char>) -> Seq<char>
    decreases s.len(),
{
    if s.len() == 0 {
        Seq::empty()
    } else {
        let rest = hyphenated(s.drop_last());
        if is_alnum(s.last()) {
            rest.push(lower(s.last()))
        } else if rest.len() > 0 && rest.last() == '-' {
            rest
        } else {
            rest.push('-')
        }
    }
}

/// The slug of a text: hyphenated, without hyphens at either end.
pub open spec fn slug_of(s: Seq<char>) -> Seq<char> {
    trim_set(hyphenated(s), seq!['-'])
}

/// The slug of some characters.
fn slug_chars(s: &[char]) -> (r: String)
    ensures
        r@ == slug_of(s@),
{
    let mut out: Vec<char> = Vec::new();
    assert(s@.take(0) =~= Seq::empty());
    for i in 0..s.len()
        invariant
            out@ == hyphenated(s@.take(i as int)),
    {
        assert(s@.take(i + 1).drop_last() =~= s@.take(i as int));
        let c: char = s[i];
        let alnum = (c >= '0' && c <= '9') || (c >= 'a' && c <= 'z') || (c >= 'A' && c <= 'Z');
        if alnum {
            out.push(to_lower(c));
        } else if out.len() > 0 && out[out.len() - 1] == '-' {
        } else {
            out.push('-');
        }
    }
    assert(s@.take(s@.len() as int) =~= s@);
    let hyphen = ['-'];
    assert(hyphen@ =~= seq!['-']);
    from_chars(trimmed_set(&out, &hyphen))
}

/// Lowercase, replace runs of non-alphanumeric with single hyphens, trim hyphens.
pub fn slugify(s: &str) -> (r: String)
    ensures
        r@ == slug_of(s@),
{
    slug_chars(&to_chars(s))
}

/// The slug of a List-Id: that of its first dot-label.
pub open spec fn list_slug_of(list_id: Seq<char>) -> Seq<char> {
    slug_of(before_first(list_id, '.'))
}

/// Slug for a List-Id value, e.g. `elixir-lang.groups.io` -> `elixir-lang`. The first
/// dot-label is the list's own name.
pub fn list_slug(list_id: &str) -> (r: String)
    ensures
        r@ == list_slug_of(list_id@),
{
    slug_chars(first_piece(&to_chars(list_id), '.'))
}

/// A hexadecimal digit.
pub open spec fn is_hex(c: char) -> bool {
    is_digit(c) || ('a' <= c && c <= 'f') || ('A' <= c && c <= 'F')
}

/// The characters of `s` other than hyphens.
pub open spec fn unhyphenated(s: Seq<char>) -> Seq<char> {
    s.filter(|c: char| c != '-')
}

/// The slug is unusable as a folder name: hyphens aside it is empty, all digits or a long
/// hexadecimal number, or it is `www`.
pub open spec fn opaque(slug: Seq<char>) -> bool {
    let bare = unhyphenated(slug);
    ||| bare.len() == 0
    ||| slug == "www"@
    ||| forall|i: int| 0 <= i < bare.len() ==> is_digit(#[trigger] bare[i])
    ||| bare.len() >= 8 && forall|i: int| 0 <= i < bare.len() ==> is_hex(#[trigger] bare[i])
}

/// True if a slug is unusable as a human folder name: empty, generic (`www`), all
/// digits, or a long hex blob (campaign ids like `9d03786bc12364dc5eca9fb32`). Callers
/// fall back to a better signal (display name / domain) when this holds.
pub fn is_opaque_slug(slug: &str) -> (r: bool)
    ensures
        r == opaque(slug@),
{
    let chars = to_chars(slug);
    let mut bare: Vec<char> = Vec::new();
    let ghost keep = |c: char| c != '-';
    reveal(Seq::filter);
    assert(chars@.take(0) =~= Seq::empty());
    for i in 0..chars.len()
        invariant
            keep == (|c: char| c != '-'),
            bare@ == chars@.take(i as int).filter(keep),
    {
        reveal(Seq::filter);
        assert(chars@.take(i + 1).drop_last() =~= chars@.take(i as int));
        if chars[i] != '-' {
            bare.push(chars[i]);
        }
    }
    assert(chars@.take(chars@.len() as int) =~= chars@);
    assert(bare@ == unhyphenated(slug@));
    if bare.len() == 0 || str_eq(slug, "www") {
        return true;
    }
    let mut all_digits = true;
    let mut all_hex = true;
    for i in 0..bare.len()
        invariant
            all_digits == forall|j: int| 0 <= j < i ==> is_digit(#[trigger] bare@[j]),
            all_hex == forall|j: int| 0 <= j < i ==> is_hex(#[trigger] bare@[j]),
    {
        let c: char = bare[i];
        let digit = c >= '0' && c <= '9';
        if !digit {
            assert(!is_digit(bare@[i as int]));
            all_digits = false;
        }
        if !digit && !(c >= 'a' && c <= 'f') && !(c >= 'A' && c <= 'F') {
            assert(!is_hex(bare@[i as int]));
            all_hex = false;
        }
    }
    all_digits || (bare.len() >= 8 && all_hex)
}

/// A public suffix of two labels (`co.uk`, `com.au`).
pub open spec fn two_level_suffix(second: Seq<char>, last: Seq<char>) -> bool {
    ||| second == "co"@ && last == "uk"@
    ||| second == "org"@ && last == "uk"@
    ||| second == "ac"@ && last == "uk"@
    ||| second == "co"@ && last == "nz"@
    ||| second == "com"@ && last == "au"@
    ||| second == "co"@ && last == "jp"@
}

/// Whether two labels are a public suffix.
fn is_two_level_suffix(second: &[char], last: &[char]) -> (r: bool)
    ensures
        r == two_level_suffix(second@, last@),
{
    let co = chars_eq(second, &to_chars("co"));
    let uk = chars_eq(last, &to_chars("uk"));
    (co && uk) || (chars_eq(second, &to_chars("org")) && uk) || (chars_eq(
        second,
        &to_chars("ac"),
    ) && uk) || (co && chars_eq(last, &to_chars("nz"))) || (chars_eq(second, &to_chars("com"))
        && chars_eq(last, &to_chars("au"))) || (co && chars_eq(last, &to_chars("jp")))
}

/// The label of a domain that names its owner: the one left of the public suffix, which
/// is the last label, or the last two if they are such a suffix.
pub open spec fn owner_label(domain: Seq<char>) -> Seq<char> {
    let labels = nonempty(split(domain, '.'));
    let n = labels.len() as int;
    if n == 0 {
        domain
    } else if n == 1 {
        labels[0]
    } else if n >= 3 && two_level_suffix(labels[n - 2], labels[n - 1]) {
        labels[n - 3]
    } else {
        labels[n - 2]
    }
}

/// The slug of a domain: that of its owner's label.
pub open spec fn domain_slug_of(domain: Seq<char>) -> Seq<char> {
    slug_of(owner_label(domain))
}

/// Slug for a sender domain, e.g. `github.com` -> `github`, `news.ycombinator.com` ->
/// `ycombinator`.
pub fn domain_slug(domain: &str) -> (r: String)
    ensures
        r@ == domain_slug_of(domain@),
{
    let chars = to_chars(domain);
    let pieces = split_chars(&chars, '.');
    let ghost all = split(domain@, '.');
    let ghost keep = |x: Seq<char>| x.len() > 0;
    let mut labels: Vec<&Vec<char>> = Vec::new();
    reveal(Seq::filter);
    assert(Seq::new(labels@.len(), |j: int| labels@[j]@) =~= all.take(0).filter(keep));
    for i in 0..pieces.len()
        invariant
            keep == (|x: Seq<char>| x.len() > 0),
            all == views(pieces@),
            Seq::new(labels@.len(), |j: int| labels@[j]@) == all.take(i as int).filter(keep),
    {
        reveal(Seq::filter);
        assert(all.take(i + 1).drop_last() =~= all.take(i as int));
        assert(all[i as int] == pieces@[i as int]@);
        let ghost was = Seq::new(labels@.len(), |j: int| labels@[j]@);
        if pieces[i].len() > 0 {
            labels.push(&pieces[i]);
            assert(Seq::new(labels@.len(), |j: int| labels@[j]@) =~= was.push(all[i as int]));
        }
    }
    assert(all.take(pieces@.len() as int) =~= all);
    let ghost named = nonempty(all);
    assert(Seq::new(labels@.len(), |j: int| labels@[j]@) == named);
    let n: usize = labels.len();
    assert(forall|j: int| 0 <= j < n ==> (#[trigger] labels@[j])@ == named[j]);
    if n == 0 {
        slug_chars(&chars)
    } else if n == 1 {
        slug_chars(labels[0])
    } else if n >= 3 && is_two_level_suffix(labels[n - 2], labels[n - 1]) {
        slug_chars(labels[n - 3])
    } else {
        slug_chars(labels[n - 2])
    }
}

/// The slug of a person: that of the display name, or of the local part of the address
/// where the name gives none.
pub open spec fn person_slug_of(addr: Seq<char>, name: Option<Seq<char>>) -> Seq<char> {
    if name is Some && slug_of(name->0).len() > 0 {
        slug_of(name->0)
    } else {
        slug_of(before_first(addr, '@'))
    }
}

/// Slug for a person address: prefer the display name if given, else the local part.
pub fn person_slug(addr: &str, name: Option<&str>) -> (r: String)
    ensures
        r@ == person_slug_of(
            addr@,
            match name {
                Some(n) => Some(n@),
                None => None,
            },
        ),
{
    if let Some(n) = name {
        let s = slug_chars(&to_chars(n));
        if to_chars(&s).len() > 0 {
            return s;
        }
    }
    slug_chars(first_piece(&to_chars(addr), '@'))
}

} // verus!
