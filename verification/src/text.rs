//! Character-level text primitives: whitespace, trimming, searching, splitting and joining.
//!
//! Text is modelled as `Seq<char>`. Every executable function here states its result as
//! one of the specification functions of this module.

pub mod laws;

use vstd::prelude::*;

verus! {

broadcast use vstd::seq_lib::group_seq_properties;

/// `String::push` appends the given character to the end of the string.
pub assume_specification[ String::push ](s: &mut String, c: char)
    ensures
        final(s)@ == old(s)@.push(c),
;

/// `String::push_str` appends the given slice to the end of the string.
pub assume_specification[ String::push_str ](s: &mut String, t: &str)
    ensures
        final(s)@ == old(s)@ + t@,
;

// ---- conversions ----

/// The characters of a string slice.
pub fn to_chars(s: &str) -> (r: Vec<char>)
    ensures
        r@ == s@,
{
    let mut r: Vec<char> = Vec::new();
    for c in it: s.chars()
        invariant
            r@ == it.seq().take(it.index()),
    {
        r.push(c);
        assert(it.seq().take(it.index() + 1) =~= it.seq().take(it.index()).push(c));
    }
    r
}

/// The string made of the given characters.
pub fn from_chars(v: &[char]) -> (r: String)
    ensures
        r@ == v@,
{
    let mut r = String::new();
    for i in 0..v.len()
        invariant
            r@ == v@.take(i as int),
    {
        r.push(v[i]);
        assert(v@.take(i + 1) =~= v@.take(i as int).push(v@[i as int]));
    }
    assert(v@.take(v@.len() as int) =~= v@);
    r
}

/// A sub-slice of a character slice.
pub fn slice(s: &[char], from: usize, to: usize) -> (r: &[char])
    requires
        from <= to <= s@.len(),
    ensures
        r@ == s@.subrange(from as int, to as int),
{
    vstd::slice::slice_subrange(s, from, to)
}

/// Whether two character slices are equal.
pub fn chars_eq(a: &[char], b: &[char]) -> (r: bool)
    ensures
        r == (a@ == b@),
{
    if a.len() != b.len() {
        return false;
    }
    for i in 0..a.len()
        invariant
            a@.len() == b@.len(),
            forall|j: int| 0 <= j < i ==> a@[j] == b@[j],
    {
        if a[i] != b[i] {
            return false;
        }
    }
    assert(a@ =~= b@);
    true
}

/// Whether two string slices hold the same characters.
pub fn str_eq(a: &str, b: &str) -> (r: bool)
    ensures
        r == (a@ == b@),
{
    chars_eq(&to_chars(a), &to_chars(b))
}

// ---- character classes ----

/// The Unicode `White_Space` property.
pub open spec fn is_white(c: char) -> bool {
    ||| '\u{9}' <= c <= '\u{d}'
    ||| c == '\u{20}'
    ||| c == '\u{85}'
    ||| c == '\u{a0}'
    ||| c == '\u{1680}'
    ||| '\u{2000}' <= c <= '\u{200a}'
    ||| c == '\u{2028}'
    ||| c == '\u{2029}'
    ||| c == '\u{202f}'
    ||| c == '\u{205f}'
    ||| c == '\u{3000}'
}

/// Whether a character is whitespace.
pub fn is_whitespace(c: char) -> (r: bool)
    ensures
        r == is_white(c),
{
    ('\u{9}' <= c && c <= '\u{d}') || c == '\u{20}' || c == '\u{85}' || c == '\u{a0}' || c
        == '\u{1680}' || ('\u{2000}' <= c && c <= '\u{200a}') || c == '\u{2028}' || c == '\u{2029}'
        || c == '\u{202f}' || c == '\u{205f}' || c == '\u{3000}'
}

pub open spec fn is_digit(c: char) -> bool {
    '0' <= c <= '9'
}

pub open spec fn is_ascii_upper(c: char) -> bool {
    'A' <= c <= 'Z'
}

pub open spec fn is_ascii_lower(c: char) -> bool {
    'a' <= c <= 'z'
}

pub open spec fn is_alnum(c: char) -> bool {
    is_digit(c) || is_ascii_upper(c) || is_ascii_lower(c)
}

/// ASCII lowercasing of one character; other characters are unchanged.
pub open spec fn lower(c: char) -> char {
    if is_ascii_upper(c) {
        (c as u32 + 32) as char
    } else {
        c
    }
}

/// ASCII uppercasing of one character; other characters are unchanged.
pub open spec fn upper(c: char) -> char {
    if is_ascii_lower(c) {
        (c as u32 - 32) as char
    } else {
        c
    }
}

pub fn to_lower(c: char) -> (r: char)
    ensures
        r == lower(c),
{
    if 'A' <= c && c <= 'Z' {
        (c as u8 + 32) as char
    } else {
        c
    }
}

pub fn to_upper(c: char) -> (r: char)
    ensures
        r == upper(c),
{
    if 'a' <= c && c <= 'z' {
        (c as u8 - 32) as char
    } else {
        c
    }
}

pub open spec fn upper_all(s: Seq<char>) -> Seq<char> {
    s.map_values(|c: char| upper(c))
}

/// ASCII uppercasing of a whole text.
pub fn uppercase(s: &[char]) -> (r: Vec<char>)
    ensures
        r@ == upper_all(s@),
{
    let mut r: Vec<char> = Vec::new();
    for i in 0..s.len()
        invariant
            r@ == upper_all(s@.take(i as int)),
    {
        r.push(to_upper(s[i]));
        assert(upper_all(s@.take(i + 1)) =~= upper_all(s@.take(i as int)).push(
            upper(s@[i as int]),
        ));
    }
    assert(s@.take(s@.len() as int) =~= s@);
    r
}

// ---- trimming ----

/// `s` without its longest prefix of characters satisfying `p`.
pub open spec fn drop_while(s: Seq<char>, p: spec_fn(char) -> bool) -> Seq<char>
    decreases s.len(),
{
    if s.len() > 0 && p(s[0]) {
        drop_while(s.skip(1), p)
    } else {
        s
    }
}

/// `s` without its longest suffix of characters satisfying `p`.
pub open spec fn drop_end_while(s: Seq<char>, p: spec_fn(char) -> bool) -> Seq<char>
    decreases s.len(),
{
    if s.len() > 0 && p(s.last()) {
        drop_end_while(s.drop_last(), p)
    } else {
        s
    }
}

pub open spec fn trim_start(s: Seq<char>) -> Seq<char> {
    drop_while(s, |c: char| is_white(c))
}

pub open spec fn trim_end(s: Seq<char>) -> Seq<char> {
    drop_end_while(s, |c: char| is_white(c))
}

/// `s` without leading and trailing whitespace.
pub open spec fn trim(s: Seq<char>) -> Seq<char> {
    trim_end(trim_start(s))
}

/// `s` without leading characters of `set`.
pub open spec fn trim_start_set(s: Seq<char>, set: Seq<char>) -> Seq<char> {
    drop_while(s, |c: char| set.contains(c))
}

/// `s` without trailing characters of `set`.
pub open spec fn trim_end_set(s: Seq<char>, set: Seq<char>) -> Seq<char> {
    drop_end_while(s, |c: char| set.contains(c))
}

/// `s` without leading and trailing characters of `set`.
pub open spec fn trim_set(s: Seq<char>, set: Seq<char>) -> Seq<char> {
    trim_end_set(trim_start_set(s, set), set)
}

/// `s` without leading whitespace.
pub fn trimmed_start(s: &[char]) -> (r: &[char])
    ensures
        r@ == trim_start(s@),
{
    let ghost p = |c: char| is_white(c);
    let mut i: usize = 0;
    assert(s@.skip(0) =~= s@);
    while i < s.len() && is_whitespace(s[i])
        invariant
            i <= s@.len(),
            p == (|c: char| is_white(c)),
            drop_while(s@, p) == drop_while(s@.skip(i as int), p),
        decreases s@.len() - i,
    {
        assert(s@.skip(i as int).skip(1) =~= s@.skip(i + 1));
        i += 1;
    }
    assert(s@.skip(i as int) =~= s@.subrange(i as int, s@.len() as int));
    slice(s, i, s.len())
}

/// `s` without trailing whitespace.
pub fn trimmed_end(s: &[char]) -> (r: &[char])
    ensures
        r@ == trim_end(s@),
{
    let ghost p = |c: char| is_white(c);
    let mut i: usize = s.len();
    assert(s@.take(i as int) =~= s@);
    while i > 0 && is_whitespace(s[i - 1])
        invariant
            i <= s@.len(),
            p == (|c: char| is_white(c)),
            drop_end_while(s@, p) == drop_end_while(s@.take(i as int), p),
        decreases i,
    {
        assert(s@.take(i as int).drop_last() =~= s@.take(i - 1));
        i -= 1;
    }
    slice(s, 0, i)
}

/// `s` without leading and trailing whitespace.
pub fn trimmed(s: &[char]) -> (r: &[char])
    ensures
        r@ == trim(s@),
{
    trimmed_end(trimmed_start(s))
}

/// Whether `set` holds the character `c`.
pub fn holds(set: &[char], c: char) -> (r: bool)
    ensures
        r == set@.contains(c),
{
    for i in 0..set.len()
        invariant
            forall|j: int| 0 <= j < i ==> set@[j] != c,
    {
        if set[i] == c {
            return true;
        }
    }
    false
}

/// `s` without leading characters of `set`.
pub fn trimmed_start_set<'a>(s: &'a [char], set: &[char]) -> (r: &'a [char])
    ensures
        r@ == trim_start_set(s@, set@),
{
    let ghost p = |c: char| set@.contains(c);
    let mut i: usize = 0;
    assert(s@.skip(0) =~= s@);
    while i < s.len() && holds(set, s[i])
        invariant
            i <= s@.len(),
            p == (|c: char| set@.contains(c)),
            drop_while(s@, p) == drop_while(s@.skip(i as int), p),
        decreases s@.len() - i,
    {
        assert(s@.skip(i as int).skip(1) =~= s@.skip(i + 1));
        i += 1;
    }
    assert(s@.skip(i as int) =~= s@.subrange(i as int, s@.len() as int));
    slice(s, i, s.len())
}

/// `s` without trailing characters of `set`.
pub fn trimmed_end_set<'a>(s: &'a [char], set: &[char]) -> (r: &'a [char])
    ensures
        r@ == trim_end_set(s@, set@),
{
    let ghost p = |c: char| set@.contains(c);
    let mut i: usize = s.len();
    assert(s@.take(i as int) =~= s@);
    while i > 0 && holds(set, s[i - 1])
        invariant
            i <= s@.len(),
            p == (|c: char| set@.contains(c)),
            drop_end_while(s@, p) == drop_end_while(s@.take(i as int), p),
        decreases i,
    {
        assert(s@.take(i as int).drop_last() =~= s@.take(i - 1));
        i -= 1;
    }
    slice(s, 0, i)
}

/// `s` without leading and trailing characters of `set`.
pub fn trimmed_set<'a>(s: &'a [char], set: &[char]) -> (r: &'a [char])
    ensures
        r@ == trim_set(s@, set@),
{
    trimmed_end_set(trimmed_start_set(s, set), set)
}

// ---- searching ----

/// `pat` stands in `s` at index `i`.
pub open spec fn occurs_at(s: Seq<char>, pat: Seq<char>, i: int) -> bool {
    0 <= i && i + pat.len() <= s.len() && s.subrange(i, i + pat.len()) == pat
}

/// `pat` stands somewhere in `s`.
pub open spec fn has_text(s: Seq<char>, pat: Seq<char>) -> bool {
    exists|i: int| occurs_at(s, pat, i)
}

/// The least index, from `i` on, at which `pat` stands in `s`.
pub open spec fn find_from(s: Seq<char>, pat: Seq<char>, i: int) -> Option<int>
    decreases s.len() + 1 - i,
{
    if i + pat.len() > s.len() {
        None
    } else if occurs_at(s, pat, i) {
        Some(i)
    } else {
        find_from(s, pat, i + 1)
    }
}

/// The least index at which `pat` stands in `s`.
pub open spec fn find(s: Seq<char>, pat: Seq<char>) -> Option<int> {
    find_from(s, pat, 0)
}

/// The greatest index, up to `i`, at which `pat` stands in `s`.
pub open spec fn rfind_to(s: Seq<char>, pat: Seq<char>, i: int) -> Option<int>
    decreases i + 1,
{
    if i < 0 {
        None
    } else if occurs_at(s, pat, i) {
        Some(i)
    } else {
        rfind_to(s, pat, i - 1)
    }
}

/// The greatest index at which `pat` stands in `s`.
pub open spec fn rfind(s: Seq<char>, pat: Seq<char>) -> Option<int> {
    rfind_to(s, pat, s.len() - pat.len())
}

/// What `find_from` returns is the least occurrence from `i` on, and it returns one
/// whenever there is one.
pub proof fn lemma_find_from(s: Seq<char>, pat: Seq<char>, i: int)
    requires
        0 <= i,
    ensures
        match find_from(s, pat, i) {
            Some(j) => i <= j && occurs_at(s, pat, j) && forall|k: int|
                i <= k < j ==> !occurs_at(s, pat, k),
            None => forall|k: int| i <= k ==> !occurs_at(s, pat, k),
        },
    decreases s.len() + 1 - i,
{
    if i + pat.len() <= s.len() && !occurs_at(s, pat, i) {
        lemma_find_from(s, pat, i + 1);
        assert forall|k: int| i <= k && !(i + 1 <= k) implies !occurs_at(s, pat, k) by {}
    }
}

/// What `find` returns is the least occurrence, and it returns one whenever there is one.
pub proof fn lemma_find(s: Seq<char>, pat: Seq<char>)
    ensures
        match find(s, pat) {
            Some(j) => 0 <= j && occurs_at(s, pat, j) && forall|k: int|
                0 <= k < j ==> !occurs_at(s, pat, k),
            None => !has_text(s, pat),
        },
        find(s, pat) is Some <==> has_text(s, pat),
{
    lemma_find_from(s, pat, 0);
}

/// The index `j` is what `find` returns once it is known to be the least occurrence.
pub proof fn lemma_find_is(s: Seq<char>, pat: Seq<char>, j: int)
    requires
        occurs_at(s, pat, j),
        forall|k: int| 0 <= k < j ==> !occurs_at(s, pat, k),
    ensures
        find(s, pat) == Some(j),
{
    lemma_find(s, pat);
}

/// What `rfind_to` returns is the greatest occurrence up to `i`.
pub proof fn lemma_rfind_to(s: Seq<char>, pat: Seq<char>, i: int)
    ensures
        match rfind_to(s, pat, i) {
            Some(j) => 0 <= j <= i && occurs_at(s, pat, j) && forall|k: int|
                j < k <= i ==> !occurs_at(s, pat, k),
            None => forall|k: int| k <= i ==> !occurs_at(s, pat, k),
        },
    decreases i + 1,
{
    if i >= 0 && !occurs_at(s, pat, i) {
        lemma_rfind_to(s, pat, i - 1);
        assert forall|k: int| k <= i && !(k <= i - 1) implies !occurs_at(s, pat, k) by {}
    }
}

/// What `rfind` returns is the greatest occurrence, and it returns one whenever there is one.
pub proof fn lemma_rfind(s: Seq<char>, pat: Seq<char>)
    ensures
        match rfind(s, pat) {
            Some(j) => 0 <= j && occurs_at(s, pat, j) && forall|k: int|
                j < k ==> !occurs_at(s, pat, k),
            None => !has_text(s, pat),
        },
        rfind(s, pat) is Some <==> has_text(s, pat),
{
    lemma_rfind_to(s, pat, s.len() - pat.len());
    assert forall|k: int| s.len() - pat.len() < k implies !occurs_at(s, pat, k) by {}
}

/// Whether `pat` stands in `s` at `i`.
pub fn stands_at(s: &[char], pat: &[char], i: usize) -> (r: bool)
    ensures
        r == occurs_at(s@, pat@, i as int),
{
    if i > s.len() || pat.len() > s.len() - i {
        return false;
    }
    chars_eq(slice(s, i, i + pat.len()), pat)
}

/// The least index at which `pat` stands in `s`.
pub fn find_first(s: &[char], pat: &[char]) -> (r: Option<usize>)
    ensures
        match r {
            Some(i) => find(s@, pat@) == Some(i as int) && i + pat@.len() <= s@.len(),
            None => find(s@, pat@) is None,
        },
{
    let mut i: usize = 0;
    while pat.len() <= s.len() - i
        invariant
            i <= s@.len(),
            find(s@, pat@) == find_from(s@, pat@, i as int),
        decreases s@.len() - i,
    {
        if stands_at(s, pat, i) {
            return Some(i);
        }
        assert(pat@.len() > 0) by {
            if pat@.len() == 0 {
                assert(s@.subrange(i as int, i as int) =~= pat@);
            }
        }
        i += 1;
    }
    None
}

/// The greatest index at which `pat` stands in `s`.
pub fn find_last(s: &[char], pat: &[char]) -> (r: Option<usize>)
    ensures
        match r {
            Some(i) => rfind(s@, pat@) == Some(i as int) && i + pat@.len() <= s@.len(),
            None => rfind(s@, pat@) is None,
        },
{
    if pat.len() > s.len() {
        return None;
    }
    let mut i: usize = s.len() - pat.len();
    loop
        invariant
            i <= s@.len() - pat@.len(),
            rfind(s@, pat@) == rfind_to(s@, pat@, i as int),
        decreases i,
    {
        if stands_at(s, pat, i) {
            return Some(i);
        }
        if i == 0 {
            assert(rfind_to(s@, pat@, -1) is None);
            return None;
        }
        i -= 1;
    }
}

/// Whether `pat` stands somewhere in `s`.
pub fn contains_text(s: &[char], pat: &[char]) -> (r: bool)
    ensures
        r == has_text(s@, pat@),
{
    proof {
        lemma_find(s@, pat@);
    }
    find_first(s, pat).is_some()
}

/// `s` begins with `pat`.
pub open spec fn starts_with(s: Seq<char>, pat: Seq<char>) -> bool {
    occurs_at(s, pat, 0)
}

/// `s` ends with `pat`.
pub open spec fn ends_with(s: Seq<char>, pat: Seq<char>) -> bool {
    occurs_at(s, pat, s.len() - pat.len())
}

/// Whether `s` begins with `pat`.
pub fn begins_with(s: &[char], pat: &[char]) -> (r: bool)
    ensures
        r == starts_with(s@, pat@),
{
    stands_at(s, pat, 0)
}

// ---- splitting and joining ----

/// The texts that a sequence of character vectors holds.
pub open spec fn views(v: Seq<Vec<char>>) -> Seq<Seq<char>> {
    v.map_values(|x: Vec<char>| x@)
}

/// The texts that a sequence of strings holds.
pub open spec fn texts(v: Seq<String>) -> Seq<Seq<char>> {
    v.map_values(|x: String| x@)
}

/// The text of an optional string.
pub open spec fn opt_text(s: Option<String>) -> Option<Seq<char>> {
    match s {
        Some(x) => Some(x@),
        None => None,
    }
}

/// The texts of a sequence of optional strings.
pub open spec fn opt_texts(v: Seq<Option<String>>) -> Seq<Option<Seq<char>>> {
    Seq::new(v.len(), |i: int| opt_text(v[i]))
}

/// The pieces of `s` between the characters that satisfy `p`, empty pieces included.
/// There is always one piece more than there are separators.
pub open spec fn split_by(s: Seq<char>, p: spec_fn(char) -> bool) -> Seq<Seq<char>>
    decreases s.len(),
{
    if s.len() == 0 {
        seq![Seq::<char>::empty()]
    } else {
        let pieces = split_by(s.drop_last(), p);
        if p(s.last()) {
            pieces.push(Seq::<char>::empty())
        } else {
            pieces.drop_last().push(pieces.last().push(s.last()))
        }
    }
}

/// The predicate "is the character `c`".
pub open spec fn is_char(c: char) -> spec_fn(char) -> bool {
    |x: char| x == c
}

/// The pieces of `s` between occurrences of the character `c`.
pub open spec fn split(s: Seq<char>, c: char) -> Seq<Seq<char>> {
    split_by(s, is_char(c))
}

/// The nonempty texts among `pieces`.
pub open spec fn nonempty(pieces: Seq<Seq<char>>) -> Seq<Seq<char>> {
    pieces.filter(|x: Seq<char>| x.len() > 0)
}

/// The whitespace-separated words of `s`.
pub open spec fn words(s: Seq<char>) -> Seq<Seq<char>> {
    nonempty(split_by(s, |c: char| is_white(c)))
}

/// `parts` joined by `sep`.
pub open spec fn join(parts: Seq<Seq<char>>, sep: Seq<char>) -> Seq<char>
    decreases parts.len(),
{
    if parts.len() == 0 {
        Seq::empty()
    } else if parts.len() == 1 {
        parts[0]
    } else {
        join(parts.drop_last(), sep) + sep + parts.last()
    }
}

/// A line without the carriage return that precedes its line feed.
pub open spec fn strip_cr(s: Seq<char>) -> Seq<char> {
    if s.len() > 0 && s.last() == '\r' {
        s.drop_last()
    } else {
        s
    }
}

/// The lines of `s`. A line ends at a line feed, with one carriage return before it
/// dropped; the final line ending is optional.
pub open spec fn lines(s: Seq<char>) -> Seq<Seq<char>> {
    let pieces = split(s, '\n');
    let ended = pieces.drop_last().map_values(|x: Seq<char>| strip_cr(x));
    if pieces.last().len() == 0 {
        ended
    } else {
        ended.push(pieces.last())
    }
}

pub proof fn lemma_split_by_len(s: Seq<char>, p: spec_fn(char) -> bool)
    ensures
        split_by(s, p).len() >= 1,
        split_by(s, p).len() <= s.len() + 1,
    decreases s.len(),
{
    if s.len() > 0 {
        lemma_split_by_len(s.drop_last(), p);
    }
}

/// The pieces of `s` between occurrences of the character `c`.
pub fn split_chars(s: &[char], c: char) -> (r: Vec<Vec<char>>)
    ensures
        views(r@) == split(s@, c),
{
    let ghost p = is_char(c);
    let mut r: Vec<Vec<char>> = Vec::new();
    let mut cur: Vec<char> = Vec::new();
    proof {
        assert(s@.take(0) =~= Seq::empty());
        assert(views(r@).push(cur@) =~= seq![Seq::<char>::empty()]);
    }
    for i in 0..s.len()
        invariant
            p == is_char(c),
            views(r@).push(cur@) == split_by(s@.take(i as int), p),
    {
        let ghost before = views(r@).push(cur@);
        proof {
            assert(s@.take(i + 1).drop_last() =~= s@.take(i as int));
            assert(before.drop_last() =~= views(r@));
        }
        if s[i] == c {
            let ghost old_r = r@;
            r.push(cur);
            assert(views(r@) =~= before);
            cur = Vec::new();
        } else {
            cur.push(s[i]);
        }
    }
    let ghost before = views(r@).push(cur@);
    assert(s@.take(s@.len() as int) =~= s@);
    r.push(cur);
    assert(views(r@) =~= before);
    r
}

/// The whitespace-separated words of `s`.
pub fn split_words(s: &[char]) -> (r: Vec<Vec<char>>)
    ensures
        views(r@) == words(s@),
{
    let ghost p = |x: char| is_white(x);
    let ghost q = |x: Seq<char>| x.len() > 0;
    let mut r: Vec<Vec<char>> = Vec::new();
    let mut cur: Vec<char> = Vec::new();
    let ghost mut done: Seq<Seq<char>> = Seq::empty();
    proof {
        assert(s@.take(0) =~= Seq::empty());
        assert(done.push(cur@) =~= seq![Seq::<char>::empty()]);
        assert(done.filter(q) =~= Seq::empty());
    }
    for i in 0..s.len()
        invariant
            p == (|x: char| is_white(x)),
            q == (|x: Seq<char>| x.len() > 0),
            done.push(cur@) == split_by(s@.take(i as int), p),
            views(r@) == done.filter(q),
    {
        proof {
            assert(s@.take(i + 1).drop_last() =~= s@.take(i as int));
            assert(done.push(cur@).drop_last() =~= done);
        }
        if is_whitespace(s[i]) {
            proof {
                done.lemma_filter_push(cur@, q);
                done = done.push(cur@);
            }
            if cur.len() > 0 {
                let ghost old_r = views(r@);
                let ghost word = cur@;
                r.push(cur);
                assert(views(r@) =~= old_r.push(word));
            }
            cur = Vec::new();
        } else {
            cur.push(s[i]);
        }
    }
    assert(s@.take(s@.len() as int) =~= s@);
    proof {
        done.lemma_filter_push(cur@, q);
    }
    if cur.len() > 0 {
        let ghost old_r = views(r@);
        let ghost word = cur@;
        r.push(cur);
        assert(views(r@) =~= old_r.push(word));
    }
    r
}

/// The lines of `s`.
pub fn split_lines(s: &[char]) -> (r: Vec<Vec<char>>)
    ensures
        views(r@) == lines(s@),
{
    let pieces = split_chars(s, '\n');
    let ghost all = split(s@, '\n');
    let ghost f = |x: Seq<char>| strip_cr(x);
    proof {
        lemma_split_by_len(s@, is_char('\n'));
        assert(views(pieces@) == all);
        assert(pieces@.len() == all.len());
    }
    let n = pieces.len() - 1;
    let mut r: Vec<Vec<char>> = Vec::new();
    for i in 0..n
        invariant
            n == pieces@.len() - 1,
            all == views(pieces@),
            f == (|x: Seq<char>| strip_cr(x)),
            views(r@) == all.take(i as int).map_values(f),
    {
        let piece: &Vec<char> = &pieces[i];
        let ghost old_r = views(r@);
        assert(all[i as int] == piece@);
        let mut line = piece.clone();
        if piece.len() > 0 && piece[piece.len() - 1] == '\r' {
            line.pop();
        }
        assert(line@ == strip_cr(piece@));
        r.push(line);
        assert(views(r@) =~= old_r.push(strip_cr(piece@)));
        assert(all.take(i + 1).map_values(f) =~= all.take(i as int).map_values(f).push(
            f(all[i as int]),
        ));
    }
    assert(all.take(n as int) =~= all.drop_last());
    assert(all.last() == pieces@[n as int]@);
    if pieces[n].len() > 0 {
        let ghost old_r = views(r@);
        let last = pieces[n].clone();
        assert(last@ == all.last());
        r.push(last);
        assert(views(r@) =~= old_r.push(all.last()));
    }
    r
}

/// `parts` joined by `sep`.
pub fn joined(parts: &[Vec<char>], sep: &[char]) -> (r: Vec<char>)
    ensures
        r@ == join(views(parts@), sep@),
{
    let ghost all = views(parts@);
    let mut r: Vec<char> = Vec::new();
    assert(join(all.take(0), sep@) =~= Seq::empty());
    for i in 0..parts.len()
        invariant
            all == views(parts@),
            r@ == join(all.take(i as int), sep@),
    {
        let ghost before = r@;
        assert(all.take(i + 1).drop_last() =~= all.take(i as int));
        assert(all.take(i + 1).last() == parts@[i as int]@);
        if i > 0 {
            append_chars(&mut r, sep);
        }
        append_chars(&mut r, &parts[i]);
        assert(r@ =~= join(all.take(i + 1), sep@));
    }
    assert(all.take(parts@.len() as int) =~= all);
    r
}

/// Append the characters of `t`.
pub fn append_chars(s: &mut Vec<char>, t: &[char])
    ensures
        final(s)@ == old(s)@ + t@,
{
    for i in 0..t.len()
        invariant
            s@ == old(s)@ + t@.take(i as int),
    {
        s.push(t[i]);
        assert(t@.take(i + 1) =~= t@.take(i as int).push(t@[i as int]));
        assert(s@ =~= old(s)@ + t@.take(i + 1));
    }
    assert(t@.take(t@.len() as int) =~= t@);
}

/// What follows the last `c` of `s`: all of `s` where there is none.
pub open spec fn after_last(s: Seq<char>, c: char) -> Seq<char> {
    match rfind(s, seq![c]) {
        Some(i) => s.skip(i + 1),
        None => s,
    }
}

/// What precedes the first `c` of `s`: all of `s` where there is none.
pub open spec fn before_first(s: Seq<char>, c: char) -> Seq<char> {
    match find(s, seq![c]) {
        Some(i) => s.take(i),
        None => s,
    }
}

/// What follows the last `c` of `s`.
pub fn last_piece(s: &[char], c: char) -> (r: &[char])
    ensures
        r@ == after_last(s@, c),
{
    let pat = [c];
    assert(pat@ =~= seq![c]);
    let n: usize = s.len();
    match find_last(s, &pat) {
        Some(i) => {
            assert(s@.subrange(i + 1, s@.len() as int) =~= s@.skip(i + 1));
            slice(s, i + 1, n)
        },
        None => s,
    }
}

/// What precedes the first `c` of `s`.
pub fn first_piece(s: &[char], c: char) -> (r: &[char])
    ensures
        r@ == before_first(s@, c),
{
    let pat = [c];
    assert(pat@ =~= seq![c]);
    match find_first(s, &pat) {
        Some(i) => {
            assert(s@.subrange(0, i as int) =~= s@.take(i as int));
            slice(s, 0, i)
        },
        None => s,
    }
}

/// A copy of an optional string.
pub fn clone_opt(s: &Option<String>) -> (r: Option<String>)
    ensures
        opt_text(r) == opt_text(*s),
{
    match s {
        Some(x) => Some(x.clone()),
        None => None,
    }
}

/// A copy of a vector of strings.
pub fn clone_texts(v: &Vec<String>) -> (r: Vec<String>)
    ensures
        texts(r@) == texts(v@),
{
    let mut r: Vec<String> = Vec::new();
    for i in 0..v.len()
        invariant
            texts(r@) == texts(v@).take(i as int),
    {
        let ghost before = r@;
        r.push(v[i].clone());
        assert(texts(r@) =~= texts(before).push(v@[i as int]@));
        assert(texts(v@).take(i + 1) =~= texts(v@).take(i as int).push(v@[i as int]@));
    }
    assert(texts(v@).take(v@.len() as int) =~= texts(v@));
    r
}

/// Whether `v` holds the text `s`.
pub fn holds_text(v: &Vec<String>, s: &str) -> (r: bool)
    ensures
        r == texts(v@).contains(s@),
{
    for i in 0..v.len()
        invariant
            forall|j: int| 0 <= j < i ==> texts(v@)[j] != s@,
    {
        if str_eq(&v[i], s) {
            assert(texts(v@)[i as int] == s@);
            return true;
        }
    }
    false
}

// ---- facts about splitting and joining ----

/// Appending text without a separator lengthens the last piece.
pub proof fn lemma_split_append(a: Seq<char>, b: Seq<char>, c: char)
    requires
        !b.contains(c),
    ensures
        split(a + b, c) == split(a, c).drop_last().push(split(a, c).last() + b),
    decreases b.len(),
{
    lemma_split_by_len(a, is_char(c));
    if b.len() == 0 {
        assert(a + b =~= a);
        assert(split(a, c).last() + b =~= split(a, c).last());
        assert(split(a, c).drop_last().push(split(a, c).last()) =~= split(a, c));
    } else {
        let some = b.drop_last();
        assert(b.contains(b.last()));
        assert(!some.contains(c)) by {
            if some.contains(c) {
                let i = some.index_of(c);
                assert(b[i] == c);
            }
        }
        lemma_split_append(a, some, c);
        assert((a + b).drop_last() =~= a + some);
        assert((a + b).last() == b.last());
        let pieces = split(a + some, c);
        assert(pieces.last().push(b.last()) =~= split(a, c).last() + b);
        assert(split(a + b, c) =~= split(a, c).drop_last().push(split(a, c).last() + b));
    }
}

/// Pieces without the separator come back from their join.
pub proof fn lemma_split_join(parts: Seq<Seq<char>>, c: char)
    requires
        parts.len() > 0,
        forall|i: int| 0 <= i < parts.len() ==> !(#[trigger] parts[i]).contains(c),
    ensures
        split(join(parts, seq![c]), c) == parts,
    decreases parts.len(),
{
    let none = Seq::<char>::empty();
    if parts.len() == 1 {
        lemma_split_append(none, parts[0], c);
        assert(none + parts[0] =~= parts[0]);
        assert(split(none, c) =~= seq![none]);
        assert(split(parts[0], c) =~= parts);
    } else {
        let front = parts.drop_last();
        assert forall|i: int| 0 <= i < front.len() implies !(#[trigger] front[i]).contains(c) by {
            assert(front[i] == parts[i]);
        }
        lemma_split_join(front, c);
        let head = join(front, seq![c]) + seq![c];
        assert(head.drop_last() =~= join(front, seq![c]));
        assert(head.last() == c);
        assert(split(head, c) =~= front.push(none));
        lemma_split_append(head, parts.last(), c);
        assert(none + parts.last() =~= parts.last());
        assert(split(join(parts, seq![c]), c) =~= parts);
    }
}

/// Nothing is dropped from texts that are all nonempty.
pub proof fn lemma_nonempty_all(pieces: Seq<Seq<char>>)
    requires
        forall|i: int| 0 <= i < pieces.len() ==> (#[trigger] pieces[i]).len() > 0,
    ensures
        nonempty(pieces) == pieces,
    decreases pieces.len(),
{
    reveal(Seq::filter);
    if pieces.len() > 0 {
        let front = pieces.drop_last();
        assert forall|i: int| 0 <= i < front.len() implies (#[trigger] front[i]).len() > 0 by {
            assert(front[i] == pieces[i]);
        }
        lemma_nonempty_all(front);
        assert(pieces =~= front.push(pieces.last()));
    }
}

/// Splitting around one separator splits what stands on either side of it.
pub proof fn lemma_split_concat(a: Seq<char>, b: Seq<char>, c: char)
    ensures
        split(a + seq![c] + b, c) == split(a, c) + split(b, c),
    decreases b.len(),
{
    let head = a + seq![c];
    lemma_split_by_len(b, is_char(c));
    if b.len() == 0 {
        assert(head + b =~= head);
        assert(head.drop_last() =~= a);
        assert(split(head, c) =~= split(a, c).push(Seq::empty()));
        assert(split(b, c) =~= seq![Seq::<char>::empty()]);
        assert(split(a, c) + split(b, c) =~= split(head, c));
    } else {
        let some = b.drop_last();
        lemma_split_concat(a, some, c);
        lemma_split_by_len(some, is_char(c));
        let whole = head + b;
        assert(whole.drop_last() =~= head + some);
        assert(whole.last() == b.last());
        assert(split(whole, c) =~= split(a, c) + split(b, c));
    }
}

/// A text without the separator is its only piece.
pub proof fn lemma_split_plain(a: Seq<char>, c: char)
    requires
        !a.contains(c),
    ensures
        split(a, c) == seq![a],
{
    let none = Seq::<char>::empty();
    lemma_split_append(none, a, c);
    assert(none + a =~= a);
    assert(split(none, c) =~= seq![none]);
    assert(split(a, c) =~= seq![a]);
}

/// What `trim_end` leaves is a prefix.
pub proof fn lemma_trim_end_prefix(s: Seq<char>)
    ensures
        trim_end(s).len() <= s.len(),
        trim_end(s) == s.take(trim_end(s).len() as int),
{
    lemma_drop_end(s, |c: char| is_white(c));
}

proof fn lemma_drop_end(s: Seq<char>, p: spec_fn(char) -> bool)
    ensures
        drop_end_while(s, p).len() <= s.len(),
        drop_end_while(s, p) == s.take(drop_end_while(s, p).len() as int),
    decreases s.len(),
{
    if s.len() > 0 && p(s.last()) {
        lemma_drop_end(s.drop_last(), p);
        let n = drop_end_while(s, p).len() as int;
        assert(s.drop_last().take(n) =~= s.take(n));
    } else {
        assert(s.take(s.len() as int) =~= s);
    }
}

/// What `trim_start` leaves is a suffix, and text after it that does not start with
/// whitespace stays.
pub proof fn lemma_trim_start(s: Seq<char>, more: Seq<char>)
    ensures
        trim_start(s).len() <= s.len(),
        trim_start(s) == s.skip(s.len() - trim_start(s).len()),
        more.len() > 0 && !is_white(more[0]) ==> trim_start(s + more) == trim_start(s) + more,
{
    lemma_drop(s, more, |c: char| is_white(c));
}

proof fn lemma_drop(s: Seq<char>, more: Seq<char>, p: spec_fn(char) -> bool)
    ensures
        drop_while(s, p).len() <= s.len(),
        drop_while(s, p) == s.skip(s.len() - drop_while(s, p).len()),
        more.len() > 0 && !p(more[0]) ==> drop_while(s + more, p) == drop_while(s, p) + more,
    decreases s.len(),
{
    if s.len() > 0 && p(s[0]) {
        let rest = s.skip(1);
        lemma_drop(rest, more, p);
        assert((s + more).skip(1) =~= rest + more);
        let d = rest.len() - drop_while(rest, p).len();
        assert(rest.skip(d) =~= s.skip(d + 1));
    } else {
        assert(s.skip(0) =~= s);
        if s.len() == 0 {
            assert(s + more =~= more);
        }
    }
}

} // verus!
