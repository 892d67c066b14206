//! What the text primitives are for, said of texts put together from known parts.

use vstd::prelude::*;

use crate::text::{
    after_last, before_first, drop_end_while, drop_while, ends_with, has_text, is_alnum,
    is_ascii_lower, is_ascii_upper, is_char, is_digit, is_white, join, lemma_find, lemma_find_is,
    lemma_rfind, lemma_split_by_len, lemma_split_concat, lemma_split_plain, lines, lower,
    occurs_at, rfind, split, split_by, starts_with, strip_cr, trim, trim_end, trim_end_set,
    trim_set, trim_start, trim_start_set, upper, words,
};

verus! {

// ---- trimming ----

/// All characters satisfy `p`.
pub open spec fn all_are(s: Seq<char>, p: spec_fn(char) -> bool) -> bool {
    forall|i: int| 0 <= i < s.len() ==> p(#[trigger] s[i])
}

/// What stands behind characters to be dropped is what is left.
proof fn lemma_dropped(a: Seq<char>, core: Seq<char>, p: spec_fn(char) -> bool)
    requires
        all_are(a, p),
        core.len() > 0 ==> !p(core[0]),
    ensures
        drop_while(a + core, p) == core,
    decreases a.len(),
{
    if a.len() > 0 {
        let rest = a.skip(1);
        assert forall|i: int| 0 <= i < rest.len() implies p(#[trigger] rest[i]) by {
            assert(rest[i] == a[i + 1]);
        }
        lemma_dropped(rest, core, p);
        assert((a + core).skip(1) =~= rest + core);
        assert(p(a[0]));
        assert((a + core)[0] == a[0]);
    } else {
        assert(a + core =~= core);
    }
}

/// What stands before characters to be dropped at the end is what is left.
proof fn lemma_dropped_end(core: Seq<char>, b: Seq<char>, p: spec_fn(char) -> bool)
    requires
        all_are(b, p),
        core.len() > 0 ==> !p(core.last()),
    ensures
        drop_end_while(core + b, p) == core,
    decreases b.len(),
{
    if b.len() > 0 {
        let rest = b.drop_last();
        assert forall|i: int| 0 <= i < rest.len() implies p(#[trigger] rest[i]) by {
            assert(rest[i] == b[i]);
        }
        lemma_dropped_end(core, rest, p);
        assert((core + b).drop_last() =~= core + rest);
        assert(p(b[b.len() - 1]));
        assert((core + b).last() == b.last());
    } else {
        assert(core + b =~= core);
    }
}

/// Trimming takes away the whitespace at both ends and nothing else.
pub proof fn law_trim(a: Seq<char>, core: Seq<char>, b: Seq<char>)
    requires
        forall|i: int| 0 <= i < a.len() ==> is_white(#[trigger] a[i]),
        forall|i: int| 0 <= i < b.len() ==> is_white(#[trigger] b[i]),
        core.len() > 0 ==> !is_white(core[0]) && !is_white(core.last()),
    ensures
        trim(a + core + b) == core,
        core.len() > 0 ==> trim_start(a + core + b) == core + b,
        core.len() > 0 ==> trim_end(a + core + b) == a + core,
{
    let p = |c: char| is_white(c);
    let all = a + core + b;
    assert(all_are(a, p) && all_are(b, p));
    assert(all =~= a + (core + b));
    assert(trim_start(all) == drop_while(all, p));
    assert(trim_end(all) == drop_end_while(all, p));
    if core.len() > 0 {
        lemma_dropped(a, core + b, p);
        lemma_dropped_end(core, b, p);
        assert(trim_end(core + b) == drop_end_while(core + b, p));
        lemma_dropped_end(a + core, b, p);
    } else {
        let none = Seq::<char>::empty();
        let w = a + b;
        assert(all_are(w, p));
        assert(all =~= w + none);
        lemma_dropped(w, none, p);
        assert(trim_end(none) == drop_end_while(none, p));
        assert(drop_end_while(none, p) == none);
        assert(core =~= none);
    }
}

/// Trimming by a set takes away the characters of the set at both ends and nothing else.
pub proof fn law_trim_set(a: Seq<char>, core: Seq<char>, b: Seq<char>, set: Seq<char>)
    requires
        forall|i: int| 0 <= i < a.len() ==> set.contains(#[trigger] a[i]),
        forall|i: int| 0 <= i < b.len() ==> set.contains(#[trigger] b[i]),
        core.len() > 0 ==> !set.contains(core[0]) && !set.contains(core.last()),
    ensures
        core.len() > 0 ==> trim_set(a + core + b, set) == core,
        core.len() > 0 ==> trim_start_set(a + core, set) == core,
        core.len() > 0 ==> trim_end_set(core + b, set) == core,
{
    let p = |c: char| set.contains(c);
    let all = a + core + b;
    assert(all_are(a, p) && all_are(b, p));
    assert(all =~= a + (core + b));
    assert(trim_start_set(all, set) == drop_while(all, p));
    assert(trim_start_set(a + core, set) == drop_while(a + core, p));
    if core.len() > 0 {
        lemma_dropped(a, core + b, p);
        lemma_dropped(a, core, p);
        lemma_dropped_end(core, b, p);
        assert(trim_end_set(core + b, set) == drop_end_while(core + b, p));
    }
}

// ---- searching ----

/// Where a single character stands.
proof fn lemma_one(s: Seq<char>, c: char, i: int)
    ensures
        occurs_at(s, seq![c], i) <==> 0 <= i < s.len() && s[i] == c,
{
    if 0 <= i < s.len() {
        assert(s.subrange(i, i + 1)[0] == s[i]);
        if s[i] == c {
            assert(s.subrange(i, i + 1) =~= seq![c]);
        }
        if occurs_at(s, seq![c], i) {
            assert(seq![c][0] == c);
        }
    }
}

/// A text is cut at the first or the last occurrence of a character: what precedes the
/// first, and what follows the last. Without one, both are the whole text.
pub proof fn law_cut(a: Seq<char>, b: Seq<char>, c: char)
    ensures
        !a.contains(c) ==> before_first(a + seq![c] + b, c) == a,
        !b.contains(c) ==> after_last(a + seq![c] + b, c) == b,
        !a.contains(c) ==> before_first(a, c) == a,
        !a.contains(c) ==> after_last(a, c) == a,
{
    let all = a + seq![c] + b;
    let n = a.len() as int;
    assert(all[n] == c);
    lemma_one(all, c, n);
    if !a.contains(c) {
        assert forall|k: int| 0 <= k < n implies !occurs_at(all, seq![c], k) by {
            lemma_one(all, c, k);
            assert(all[k] == a[k]);
        }
        lemma_find_is(all, seq![c], n);
        assert(all.take(n) =~= a);
        assert forall|k: int| !occurs_at(a, seq![c], k) by {
            lemma_one(a, c, k);
        }
        lemma_find(a, seq![c]);
        lemma_rfind(a, seq![c]);
    }
    if !b.contains(c) {
        assert forall|k: int| n < k implies !occurs_at(all, seq![c], k) by {
            lemma_one(all, c, k);
            if n < k < all.len() {
                assert(all[k] == b[k - n - 1]);
            }
        }
        lemma_rfind(all, seq![c]);
        assert(rfind(all, seq![c]) == Some(n));
        assert(all.skip(n + 1) =~= b);
    }
}

/// A text starts with its front, ends with its back, and has what stands between.
pub proof fn law_parts_are_found(a: Seq<char>, b: Seq<char>, c: Seq<char>)
    ensures
        starts_with(a + b, a),
        ends_with(a + b, b),
        has_text(a + b + c, b),
{
    assert((a + b).subrange(0, a.len() as int) =~= a);
    assert((a + b).subrange(a.len() as int, (a + b).len() as int) =~= b);
    let all = a + b + c;
    assert(all.subrange(a.len() as int, (a.len() + b.len()) as int) =~= b);
    assert(occurs_at(all, b, a.len() as int));
}

// ---- splitting and joining ----

/// Splitting at a character loses nothing: no piece holds the character, and the pieces
/// joined by it are the text.
pub proof fn law_split_joins(s: Seq<char>, c: char)
    ensures
        split(s, c).len() > 0,
        forall|i: int| 0 <= i < split(s, c).len() ==> !(#[trigger] split(s, c)[i]).contains(c),
        join(split(s, c), seq![c]) == s,
    decreases s.len(),
{
    let pieces = split(s, c);
    lemma_split_by_len(s, is_char(c));
    if s.len() == 0 {
        assert(pieces =~= seq![Seq::<char>::empty()]);
        assert(join(pieces, seq![c]) =~= s);
    } else {
        let rest = s.drop_last();
        let some = split(rest, c);
        law_split_joins(rest, c);
        assert(rest.push(s.last()) =~= s);
        if s.last() == c {
            assert(pieces.drop_last() =~= some);
            assert(join(pieces, seq![c]) =~= join(some, seq![c]) + seq![c]);
        } else {
            let longer = some.last().push(s.last());
            assert(pieces == some.drop_last().push(longer));
            assert(pieces.drop_last() =~= some.drop_last());
            assert(!longer.contains(c)) by {
                if longer.contains(c) {
                    let k = longer.index_of(c);
                    assert(some[some.len() - 1][k] == c);
                    assert(some[some.len() - 1].contains(c));
                }
            }
            if some.len() == 1 {
                assert(join(pieces, seq![c]) =~= s);
            } else {
                assert(join(pieces, seq![c]) =~= s);
            }
            assert forall|i: int| 0 <= i < pieces.len() implies !(
            #[trigger] pieces[i]).contains(c) by {
                if i < pieces.len() - 1 {
                    assert(pieces[i] == some[i]);
                }
            }
        }
    }
}

/// Joining puts the separator between neighbours: one text is itself, and one more text
/// follows the others after a separator.
pub proof fn law_join_grows(parts: Seq<Seq<char>>, x: Seq<char>, sep: Seq<char>)
    ensures
        join(Seq::empty(), sep) == Seq::<char>::empty(),
        join(seq![x], sep) == x,
        parts.len() > 0 ==> join(parts.push(x), sep) == join(parts, sep) + sep + x,
{
    assert(parts.push(x).drop_last() =~= parts);
}

/// A line ends at a line feed; a carriage return right before it belongs to the ending.
/// The last line needs no ending.
pub proof fn law_lines(a: Seq<char>, b: Seq<char>)
    requires
        !a.contains('\n'),
    ensures
        a.len() == 0 || a.last() != '\r' ==> lines(a + seq!['\n'] + b) == seq![a] + lines(b),
        lines(a + seq!['\r', '\n'] + b) == seq![a] + lines(b),
        a.len() > 0 ==> lines(a) == seq![a],
        lines(Seq::empty()) == Seq::<Seq<char>>::empty(),
{
    let none = Seq::<char>::empty();
    assert(split(none, '\n') =~= seq![none]);
    assert(lines(none) =~= Seq::empty());
    lemma_split_plain(a, '\n');
    lemma_line_first(a, b);
    let ar = a.push('\r');
    assert(!ar.contains('\n')) by {
        if ar.contains('\n') {
            let k = ar.index_of('\n');
            assert(a[k] == '\n');
        }
    }
    lemma_line_first(ar, b);
    assert(ar + seq!['\n'] + b =~= a + seq!['\r', '\n'] + b);
    assert(strip_cr(ar) =~= a);
    if a.len() > 0 {
        assert(seq![a].drop_last() =~= Seq::empty());
        assert(lines(a) =~= seq![a]);
    }
}

proof fn lemma_line_first(a: Seq<char>, b: Seq<char>)
    requires
        !a.contains('\n'),
    ensures
        lines(a + seq!['\n'] + b) == seq![strip_cr(a)] + lines(b),
{
    lemma_split_concat(a, b, '\n');
    lemma_split_plain(a, '\n');
    lemma_split_by_len(b, is_char('\n'));
    let right = split(b, '\n');
    let all = seq![a] + right;
    assert(all.drop_last() =~= seq![a] + right.drop_last());
    assert(all.last() == right.last());
    assert(lines(a + seq!['\n'] + b) =~= seq![strip_cr(a)] + lines(b));
}

/// Pieces on either side of a separator.
proof fn lemma_split_by_concat(a: Seq<char>, c: char, b: Seq<char>, p: spec_fn(char) -> bool)
    requires
        p(c),
    ensures
        split_by(a + seq![c] + b, p) == split_by(a, p) + split_by(b, p),
    decreases b.len(),
{
    let all = a + seq![c] + b;
    lemma_split_by_len(a, p);
    if b.len() == 0 {
        assert(all.drop_last() =~= a);
        assert(all.last() == c);
        assert(split_by(b, p) =~= seq![Seq::<char>::empty()]);
        assert(split_by(all, p) =~= split_by(a, p) + split_by(b, p));
    } else {
        let less = b.drop_last();
        lemma_split_by_concat(a, c, less, p);
        lemma_split_by_len(less, p);
        assert(all.drop_last() =~= a + seq![c] + less);
        assert(all.last() == b.last());
        assert(split_by(all, p) =~= split_by(a, p) + split_by(b, p));
    }
}

/// Text without separators is one piece.
proof fn lemma_split_by_plain(a: Seq<char>, p: spec_fn(char) -> bool)
    requires
        forall|i: int| 0 <= i < a.len() ==> !p(#[trigger] a[i]),
    ensures
        split_by(a, p) == seq![a],
    decreases a.len(),
{
    if a.len() > 0 {
        let less = a.drop_last();
        assert forall|i: int| 0 <= i < less.len() implies !p(#[trigger] less[i]) by {
            assert(less[i] == a[i]);
        }
        lemma_split_by_plain(less, p);
        assert(!p(a[a.len() - 1]));
        assert(less.push(a.last()) =~= a);
        assert(split_by(a, p) =~= seq![a]);
    } else {
        assert(a =~= Seq::empty());
        assert(split_by(a, p) =~= seq![a]);
    }
}

/// Words are what stands between whitespace, however much of it there is.
pub proof fn law_words(word: Seq<char>, c: char, rest: Seq<char>)
    requires
        forall|i: int| 0 <= i < word.len() ==> !is_white(#[trigger] word[i]),
        is_white(c),
    ensures
        word.len() > 0 ==> words(word + seq![c] + rest) == seq![word] + words(rest),
        word.len() > 0 ==> words(word) == seq![word],
        words(seq![c] + rest) == words(rest),
        words(Seq::empty()) == Seq::<Seq<char>>::empty(),
{
    reveal(Seq::filter);
    let p = |x: char| is_white(x);
    let full = |x: Seq<char>| x.len() > 0;
    let none = Seq::<char>::empty();
    let nothing = Seq::<Seq<char>>::empty();
    assert(nothing.filter(full) == nothing);
    let blank = seq![none];
    assert(blank.drop_last() =~= nothing);
    assert(blank.filter(full) == nothing);
    lemma_split_by_concat(word, c, rest, p);
    lemma_split_by_plain(word, p);
    lemma_split_by_concat(none, c, rest, p);
    lemma_split_by_plain(none, p);
    let one = seq![word];
    assert(one.drop_last() =~= nothing);
    let right = split_by(rest, p);
    Seq::filter_distributes_over_add(one, right, full);
    Seq::filter_distributes_over_add(blank, right, full);
    assert(none + seq![c] + rest =~= seq![c] + rest);
    assert(words(seq![c] + rest) == (blank + right).filter(full));
    assert(nothing + right.filter(full) =~= right.filter(full));
    assert(words(none) == blank.filter(full));
    if word.len() > 0 {
        assert(one.filter(full) =~= one);
        assert(words(word + seq![c] + rest) == (one + right).filter(full));
    }
}

// ---- characters ----

/// The letters of the alphabet and the digits are those of ASCII; letter case is changed
/// by 32 places, and of nothing but letters.
pub proof fn law_letters(c: char)
    ensures
        is_alnum(c) <==> (48 <= c as int <= 57 || 65 <= c as int <= 90 || 97 <= c as int <= 122),
        is_digit(c) <==> 48 <= c as int <= 57,
        is_ascii_upper(c) <==> 65 <= c as int <= 90,
        is_ascii_lower(c) <==> 97 <= c as int <= 122,
        65 <= c as int <= 90 ==> lower(c) as int == c as int + 32,
        !(65 <= c as int <= 90) ==> lower(c) == c,
        97 <= c as int <= 122 ==> upper(c) as int == c as int - 32,
        !(97 <= c as int <= 122) ==> upper(c) == c,
{
}

/// Whitespace is that of Unicode: the control characters from tab to carriage return, the
/// space, and the spaces and line ends beyond ASCII.
pub proof fn law_white(c: char)
    ensures
        is_white(c) <==> {
            let n = c as int;
            9 <= n <= 13 || n == 32 || n == 133 || n == 160 || n == 5760 || 8192 <= n <= 8202 || n
                == 8232 || n == 8233 || n == 8239 || n == 8287 || n == 12288
        },
{
}

} // verus!
