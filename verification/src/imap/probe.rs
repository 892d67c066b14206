//! What the answers of an IMAP server mean.

use vstd::prelude::*;

use crate::lowercase::{ascii_lower, is_ascii, lowercased, to_lowercase};
use crate::text::{contains_text, has_text, opt_text, opt_texts, to_chars};

verus! {

/// The first character of the first delimiter that has one; a dot where none has.
pub open spec fn delimiter_among(delimiters: Seq<Option<Seq<char>>>) -> char
    decreases delimiters.len(),
{
    if delimiters.len() == 0 {
        '.'
    } else {
        match delimiters[0] {
            Some(d) => if d.len() > 0 {
                d[0]
            } else {
                delimiter_among(delimiters.skip(1))
            },
            None => delimiter_among(delimiters.skip(1)),
        }
    }
}

/// The hierarchy separator, given the delimiters that a top-level `LIST` reported.
pub fn choose_delimiter(delimiters: &Vec<Option<String>>) -> (r: char)
    ensures
        r == delimiter_among(opt_texts(delimiters@)),
{
    let ghost all = opt_texts(delimiters@);
    assert(all.skip(0) =~= all);
    for i in 0..delimiters.len()
        invariant
            all == opt_texts(delimiters@),
            delimiter_among(all) == delimiter_among(all.skip(i as int)),
    {
        assert(all.skip(i as int)[0] == opt_text(delimiters@[i as int]));
        assert(all.skip(i as int).skip(1) =~= all.skip(i + 1));
        if let Some(d) = &delimiters[i] {
            let chars = to_chars(d);
            if chars.len() > 0 {
                return chars[0];
            }
        }
    }
    '.'
}

/// Whether the error of a `CREATE` says that the mailbox exists already, which counts as
/// success.
pub fn already_exists(error: &str) -> (r: bool)
    ensures
        r == has_text(lowercased(error@), "exist"@),
        is_ascii(error@) ==> r == has_text(ascii_lower(error@), "exist"@),
{
    contains_text(&to_chars(&to_lowercase(error)), &to_chars("exist"))
}

/// The delimiter is the first character of the first answer that has one, and a dot where
/// none has.
pub proof fn law_first_delimiter(delimiters: Seq<Option<Seq<char>>>, k: int)
    requires
        0 <= k <= delimiters.len(),
        forall|j: int|
            0 <= j < k ==> ((#[trigger] delimiters[j]) matches Some(d) ==> d.len() == 0),
        k < delimiters.len() ==> delimiters[k] is Some && delimiters[k]->0.len() > 0,
    ensures
        delimiter_among(delimiters) == if k < delimiters.len() {
            delimiters[k]->0[0]
        } else {
            '.'
        },
    decreases delimiters.len(),
{
    if delimiters.len() > 0 && k > 0 {
        let rest = delimiters.skip(1);
        assert forall|j: int| 0 <= j < k - 1 implies ((#[trigger] rest[j]) matches Some(d)
            ==> d.len() == 0) by {
            assert(rest[j] == delimiters[j + 1]);
        }
        law_first_delimiter(rest, k - 1);
        assert(delimiters[0] matches Some(d) ==> d.len() == 0);
    }
}

} // verus!
