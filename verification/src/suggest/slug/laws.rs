//! What a folder is named after: the list's own name, the owner of a domain, a person's
//! display name; and which names nobody could read.

use vstd::prelude::*;

use crate::suggest::slug::{
    domain_slug_of, freemail, hyphenated, is_hex, list_slug_of, opaque, person_slug_of, slug_of,
    unhyphenated,
};
use crate::text::laws::law_cut;
use crate::text::{
    drop_end_while, drop_while, is_alnum, is_digit, join, lemma_split_join, lower, nonempty,
};

verus! {

/// The text holds an ASCII letter or digit.
pub open spec fn has_alnum(s: Seq<char>) -> bool {
    exists|i: int| 0 <= i < s.len() && is_alnum(#[trigger] s[i])
}

/// Hyphenated text has something else than hyphens if and only if the text has a letter or
/// a digit.
proof fn lemma_something_left(s: Seq<char>)
    ensures
        has_alnum(s) <==> exists|i: int|
            0 <= i < hyphenated(s).len() && (#[trigger] hyphenated(s)[i]) != '-',
    decreases s.len(),
{
    let h = hyphenated(s);
    if s.len() > 0 {
        let rest = s.drop_last();
        let some = hyphenated(rest);
        lemma_something_left(rest);
        if is_alnum(s.last()) {
            assert(s[s.len() - 1] == s.last());
            assert(h[some.len() as int] == lower(s.last()));
            assert(lower(s.last()) != '-');
        } else {
            if has_alnum(s) {
                let i = choose|i: int| 0 <= i < s.len() && is_alnum(#[trigger] s[i]);
                assert(rest[i] == s[i]);
                let k = choose|k: int| 0 <= k < some.len() && (#[trigger] some[k]) != '-';
                assert(h[k] == some[k]);
            }
            if exists|k: int| 0 <= k < h.len() && (#[trigger] h[k]) != '-' {
                let k = choose|k: int| 0 <= k < h.len() && (#[trigger] h[k]) != '-';
                assert(some[k] == h[k]);
                let i = choose|i: int| 0 <= i < rest.len() && is_alnum(#[trigger] rest[i]);
                assert(s[i] == rest[i]);
            }
        }
    }
}

/// Dropping hyphens leaves nothing if and only if there were only hyphens.
proof fn lemma_only_hyphens(s: Seq<char>, p: spec_fn(char) -> bool)
    requires
        forall|c: char| #[trigger] p(c) <==> c == '-',
    ensures
        drop_while(s, p).len() > 0 <==> exists|i: int| 0 <= i < s.len() && (#[trigger] s[i]) != '-',
        drop_end_while(s, p).len() > 0 <==> exists|i: int|
            0 <= i < s.len() && (#[trigger] s[i]) != '-',
        drop_while(s, p).len() > 0 ==> drop_while(s, p)[0] != '-',
    decreases s.len(),
{
    if s.len() > 0 {
        let tail = s.skip(1);
        let front = s.drop_last();
        lemma_only_hyphens(tail, p);
        lemma_only_hyphens(front, p);
        if s[0] == '-' {
            if exists|i: int| 0 <= i < s.len() && (#[trigger] s[i]) != '-' {
                let i = choose|i: int| 0 <= i < s.len() && (#[trigger] s[i]) != '-';
                assert(tail[i - 1] == s[i]);
            }
            if exists|i: int| 0 <= i < tail.len() && (#[trigger] tail[i]) != '-' {
                let i = choose|i: int| 0 <= i < tail.len() && (#[trigger] tail[i]) != '-';
                assert(s[i + 1] == tail[i]);
            }
        }
        if s.last() == '-' {
            if exists|i: int| 0 <= i < s.len() && (#[trigger] s[i]) != '-' {
                let i = choose|i: int| 0 <= i < s.len() && (#[trigger] s[i]) != '-';
                assert(front[i] == s[i]);
            }
            if exists|i: int| 0 <= i < front.len() && (#[trigger] front[i]) != '-' {
                let i = choose|i: int| 0 <= i < front.len() && (#[trigger] front[i]) != '-';
                assert(s[i] == front[i]);
            }
        } else {
            assert(s[s.len() - 1] != '-');
        }
    }
}

/// A text has a slug if and only if it has an ASCII letter or digit.
pub proof fn law_slug_exists(s: Seq<char>)
    ensures
        slug_of(s).len() > 0 <==> has_alnum(s),
{
    let set = seq!['-'];
    let p = |c: char| set.contains(c);
    assert(set[0] == '-');
    assert forall|c: char| #[trigger] p(c) <==> c == '-' by {}
    let h = hyphenated(s);
    let a = drop_while(h, p);
    lemma_something_left(s);
    lemma_only_hyphens(h, p);
    lemma_only_hyphens(a, p);
    assert(slug_of(s) == drop_end_while(a, p));
    if a.len() > 0 {
        assert(a[0] != '-');
    }
}

/// A person is named by their display name: where it holds an ASCII letter or digit, the
/// slug is that of the name, whatever the address. Otherwise, with or without a name, it is
/// that of what stands before the first `@` of the address.
pub proof fn law_person_slug(local: Seq<char>, rest: Seq<char>, addr: Seq<char>, name: Seq<char>)
    ensures
        has_alnum(name) ==> person_slug_of(addr, Some(name)) == slug_of(name),
        !local.contains('@') ==> {
            &&& person_slug_of(local + seq!['@'] + rest, None) == slug_of(local)
            &&& person_slug_of(local, None) == slug_of(local)
            &&& !has_alnum(name) ==> person_slug_of(local + seq!['@'] + rest, Some(name))
                == slug_of(local)
            &&& !has_alnum(name) ==> person_slug_of(local, Some(name)) == slug_of(local)
        },
{
    law_slug_exists(name);
    law_cut(local, rest, '@');
}

/// A list is named by the first label of its identifier.
pub proof fn law_list_slug(label: Seq<char>, rest: Seq<char>)
    requires
        !label.contains('.'),
    ensures
        list_slug_of(label + seq!['.'] + rest) == slug_of(label),
        list_slug_of(label) == slug_of(label),
{
    law_cut(label, rest, '.');
}

/// The public suffixes of two labels.
pub open spec fn is_country_suffix(second: Seq<char>, last: Seq<char>) -> bool {
    ||| last == "uk"@ && (second == "co"@ || second == "org"@ || second == "ac"@)
    ||| last == "nz"@ && second == "co"@
    ||| last == "au"@ && second == "com"@
    ||| last == "jp"@ && second == "co"@
}

/// The label is not empty.
pub open spec fn is_named() -> spec_fn(Seq<char>) -> bool {
    |x: Seq<char>| x.len() > 0
}

/// A domain is named by its owner: the label before the public suffix, which is the last
/// label, or the last two where those are a country's suffix. A single label is the owner.
/// Empty labels do not count.
pub proof fn law_domain_slug(pieces: Seq<Seq<char>>)
    requires
        pieces.len() > 0,
        forall|i: int| 0 <= i < pieces.len() ==> !(#[trigger] pieces[i]).contains('.'),
    ensures
        ({
            let labels = pieces.filter(is_named());
            let n = labels.len() as int;
            n > 0 ==> domain_slug_of(join(pieces, seq!['.'])) == slug_of(
                if n == 1 {
                    labels[0]
                } else if n >= 3 && is_country_suffix(labels[n - 2], labels[n - 1]) {
                    labels[n - 3]
                } else {
                    labels[n - 2]
                },
            )
        }),
{
    lemma_split_join(pieces, '.');
    assert(is_named() == (|x: Seq<char>| x.len() > 0));
    assert(nonempty(pieces) == pieces.filter(is_named()));
}

/// The number of characters other than hyphens.
pub open spec fn solid(s: Seq<char>) -> nat
    decreases s.len(),
{
    if s.len() == 0 {
        0
    } else if s.last() == '-' {
        solid(s.drop_last())
    } else {
        solid(s.drop_last()) + 1
    }
}

proof fn lemma_unhyphenated(s: Seq<char>)
    ensures
        unhyphenated(s).len() == solid(s),
        forall|c: char| #[trigger] unhyphenated(s).contains(c) <==> s.contains(c) && c != '-',
    decreases s.len(),
{
    reveal(Seq::filter);
    let bare = unhyphenated(s);
    if s.len() > 0 {
        let rest = s.drop_last();
        lemma_unhyphenated(rest);
        let some = unhyphenated(rest);
        let keep = |c: char| c != '-';
        assert(some == rest.filter(keep));
        assert(bare == s.filter(keep));
        assert forall|c: char| #[trigger] bare.contains(c) <==> s.contains(c) && c != '-' by {
            if bare.contains(c) {
                let k = bare.index_of(c);
                if k < some.len() {
                    assert(some[k] == c);
                    assert(some.contains(c));
                    let i = rest.index_of(c);
                    assert(s[i] == c);
                } else {
                    assert(s[s.len() - 1] == c);
                }
            }
            if s.contains(c) && c != '-' {
                let i = s.index_of(c);
                if i < rest.len() {
                    assert(rest[i] == c);
                    assert(some.contains(c));
                    let k = some.index_of(c);
                    assert(bare[k] == c);
                } else {
                    assert(bare[some.len() as int] == c);
                }
            }
        }
    } else {
        assert(bare =~= Seq::empty());
    }
}

/// A name that says nothing: `www`, or nothing but digits and hyphens, or eight and more
/// hexadecimal digits with nothing but hyphens between them.
pub proof fn law_opaque(s: Seq<char>)
    ensures
        opaque(s) <==> {
            ||| s == "www"@
            ||| forall|i: int|
                0 <= i < s.len() ==> (#[trigger] s[i]) == '-' || '0' <= s[i] <= '9'
            ||| solid(s) >= 8 && forall|i: int|
                0 <= i < s.len() ==> (#[trigger] s[i]) == '-' || '0' <= s[i] <= '9' || 'a' <= s[i]
                    <= 'f' || 'A' <= s[i] <= 'F'
        },
{
    lemma_unhyphenated(s);
    let bare = unhyphenated(s);
    if forall|i: int| 0 <= i < bare.len() ==> is_digit(#[trigger] bare[i]) {
        assert forall|i: int| 0 <= i < s.len() implies (#[trigger] s[i]) == '-' || '0' <= s[i]
            <= '9' by {
            if s[i] != '-' {
                assert(s.contains(s[i]));
                assert(bare.contains(s[i]));
                let k = bare.index_of(s[i]);
                assert(is_digit(bare[k]));
            }
        }
    }
    if forall|i: int| 0 <= i < s.len() ==> (#[trigger] s[i]) == '-' || '0' <= s[i] <= '9' {
        assert forall|k: int| 0 <= k < bare.len() implies is_digit(#[trigger] bare[k]) by {
            assert(bare.contains(bare[k]));
            let i = s.index_of(bare[k]);
            assert(s[i] == bare[k]);
        }
    }
    if forall|i: int| 0 <= i < bare.len() ==> is_hex(#[trigger] bare[i]) {
        assert forall|i: int| 0 <= i < s.len() implies (#[trigger] s[i]) == '-' || '0' <= s[i]
            <= '9' || 'a' <= s[i] <= 'f' || 'A' <= s[i] <= 'F' by {
            if s[i] != '-' {
                assert(s.contains(s[i]));
                assert(bare.contains(s[i]));
                let k = bare.index_of(s[i]);
                assert(is_hex(bare[k]));
            }
        }
    }
    if forall|i: int|
        0 <= i < s.len() ==> (#[trigger] s[i]) == '-' || '0' <= s[i] <= '9' || 'a' <= s[i] <= 'f'
            || 'A' <= s[i] <= 'F' {
        assert forall|k: int| 0 <= k < bare.len() implies is_hex(#[trigger] bare[k]) by {
            assert(bare.contains(bare[k]));
            let i = s.index_of(bare[k]);
            assert(s[i] == bare[k]);
        }
    }
    if bare.len() == 0 {
        assert forall|i: int| 0 <= i < s.len() implies (#[trigger] s[i]) == '-' || '0' <= s[i]
            <= '9' by {
            if s[i] != '-' {
                assert(s.contains(s[i]));
                assert(bare.contains(s[i]));
            }
        }
    }
}

/// A provider whose domain says nothing of who its users are.
pub open spec fn is_public_provider(domain: Seq<char>) -> bool {
    ||| domain == "gmail.com"@ || domain == "googlemail.com"@
    ||| domain == "yahoo.com"@ || domain == "ymail.com"@
    ||| domain == "hotmail.com"@ || domain == "outlook.com"@ || domain == "live.com"@ || domain
        == "msn.com"@
    ||| domain == "aol.com"@
    ||| domain == "icloud.com"@ || domain == "me.com"@ || domain == "mac.com"@
    ||| domain == "proton.me"@ || domain == "protonmail.com"@
    ||| domain == "gmx.com"@
    ||| domain == "fastmail.com"@
}

/// The freemail domains are those of the public providers.
pub proof fn law_freemail(domain: Seq<char>)
    ensures
        freemail().contains(domain) <==> is_public_provider(domain),
{
    let all = freemail();
    assert(all.len() == 16);
    if is_public_provider(domain) {
        assert(
            domain == all[0] || domain == all[1] || domain == all[2] || domain == all[3] || domain
                == all[4] || domain == all[5] || domain == all[6] || domain == all[7] || domain
                == all[8] || domain == all[9] || domain == all[10] || domain == all[11] || domain
                == all[12] || domain == all[13] || domain == all[14] || domain == all[15]
        );
    }
    if all.contains(domain) {
        let i = all.index_of(domain);
        assert(
            i == 0 || i == 1 || i == 2 || i == 3 || i == 4 || i == 5 || i == 6 || i == 7 || i == 8
                || i == 9 || i == 10 || i == 11 || i == 12 || i == 13 || i == 14 || i == 15
        );
    }
}

} // verus!
