//! What merging promises: the extension is declared, hand-written text stays, merging
//! again replaces the managed block and nothing else, and only the last merge counts.

use vstd::prelude::*;

use crate::model::{SieveRuleView, SieveTestView};
use crate::sieve::{
    block_text, declares, declaring, escaped, merged, placed_block, quoted, require_line,
    require_text, rule_text, rules_text, script_text, test_text, with_require, BEGIN_MARKER,
    END_MARKER,
};
use crate::text::{
    ends_with, find, has_text, is_char, is_white, lemma_find, lemma_find_is, lemma_split_by_len,
    lemma_split_concat, lemma_split_plain, lemma_trim_end_prefix, lemma_trim_start, lines,
    occurs_at, split, starts_with, strip_cr, trim_end, trim_start,
};

verus! {

/// The begin marker starts with its only `#` and holds no line break.
pub proof fn lemma_begin_marker()
    ensures
        BEGIN_MARKER@.len() == 56,
        BEGIN_MARKER@[0] == '#',
        BEGIN_MARKER@[2] == 'B',
        forall|i: int|
            0 <= i < BEGIN_MARKER@.len() ==> (#[trigger] BEGIN_MARKER@[i]) != '\n' && (i > 0
                ==> BEGIN_MARKER@[i] != '#'),
{
    reveal_strlit("# BEGIN mail-util (managed — edits here are overwritten)");
    let b = BEGIN_MARKER@;
    assert forall|i: int| 0 <= i < b.len() implies (#[trigger] b[i]) != '\n' && (i > 0 ==> b[i]
        != '#') by {
        assert(
            i == 0 || i == 1 || i == 2 || i == 3 || i == 4 || i == 5 || i == 6 || i == 7
                || i == 8 || i == 9 || i == 10 || i == 11 || i == 12 || i == 13 || i == 14
                || i == 15 || i == 16 || i == 17 || i == 18 || i == 19 || i == 20 || i == 21
                || i == 22 || i == 23 || i == 24 || i == 25 || i == 26 || i == 27 || i == 28
                || i == 29 || i == 30 || i == 31 || i == 32 || i == 33 || i == 34 || i == 35
                || i == 36 || i == 37 || i == 38 || i == 39 || i == 40 || i == 41 || i == 42
                || i == 43 || i == 44 || i == 45 || i == 46 || i == 47 || i == 48 || i == 49
                || i == 50 || i == 51 || i == 52 || i == 53 || i == 54 || i == 55
        );
    }
}

/// The end marker starts with `#` and holds no line break.
proof fn lemma_end_marker()
    ensures
        END_MARKER@.len() == 15,
        END_MARKER@[0] == '#',
        END_MARKER@[2] == 'E',
        forall|i: int| 0 <= i < END_MARKER@.len() ==> (#[trigger] END_MARKER@[i]) != '\n',
{
    reveal_strlit("# END mail-util");
    let e = END_MARKER@;
    assert forall|i: int| 0 <= i < e.len() implies (#[trigger] e[i]) != '\n' by {
        assert(
            i == 0 || i == 1 || i == 2 || i == 3 || i == 4 || i == 5 || i == 6 || i == 7
                || i == 8 || i == 9 || i == 10 || i == 11 || i == 12 || i == 13 || i == 14
        );
    }
}

/// The `require` text is one line that declares the extension, then a blank line. It
/// holds no `#`.
proof fn lemma_require_text()
    ensures
        require_text().len() == 23,
        forall|i: int| 0 <= i < require_text().len() ==> (#[trigger] require_text()[i]) != '#',
        forall|i: int|
            0 <= i < require_text().len() - 2 ==> (#[trigger] require_text()[i]) != '\n',
        require_text()[21] == '\n',
        require_text()[22] == '\n',
        declaring(require_text().take(21)),
        strip_cr(require_text().take(21)) == require_text().take(21),
{
    reveal_strlit("require [\"fileinto\"];\n\n");
    reveal_strlit("require");
    reveal_strlit("fileinto");
    let p = require_text();
    assert forall|i: int| 0 <= i < p.len() implies (#[trigger] p[i]) != '#' by {
        assert(
            i == 0 || i == 1 || i == 2 || i == 3 || i == 4 || i == 5 || i == 6 || i == 7
                || i == 8 || i == 9 || i == 10 || i == 11 || i == 12 || i == 13 || i == 14
                || i == 15 || i == 16 || i == 17 || i == 18 || i == 19 || i == 20 || i == 21
                || i == 22
        );
    }
    assert forall|i: int| 0 <= i < p.len() - 2 implies (#[trigger] p[i]) != '\n' by {
        assert(
            i == 0 || i == 1 || i == 2 || i == 3 || i == 4 || i == 5 || i == 6 || i == 7
                || i == 8 || i == 9 || i == 10 || i == 11 || i == 12 || i == 13 || i == 14
                || i == 15 || i == 16 || i == 17 || i == 18 || i == 19 || i == 20
        );
    }
    let line = p.take(21);
    assert(line[0] == 'r');
    assert(!is_white(line[0]));
    assert(trim_start(line) == line);
    assert(line.subrange(0, 7) =~= "require"@);
    assert(line.subrange(10, 18) =~= "fileinto"@);
    assert(occurs_at(line, "fileinto"@, 10));
    assert(line.last() == ';');
}

/// The merged script declares the `fileinto` extension, whatever the script was before.
pub proof fn law_merge_declares(existing: Seq<char>, rules: Seq<SieveRuleView>)
    ensures
        declares(merged(existing, rules)),
{
    let s = placed_block(existing, block_text(rules));
    if !declares(s) {
        lemma_require_text();
        let p = require_text();
        let n = p.len() - 2;
        let line = p.take(n);
        let rest = seq!['\n'] + trim_start(s);
        let r = p + trim_start(s);
        assert(r =~= line + seq!['\n'] + rest);
        assert(!line.contains('\n')) by {
            if line.contains('\n') {
                let i = line.index_of('\n');
                assert(p[i] == '\n');
            }
        }
        lemma_split_concat(line, rest, '\n');
        lemma_split_plain(line, '\n');
        lemma_split_by_len(rest, is_char('\n'));
        let pieces = split(r, '\n');
        assert(pieces[0] == line);
        assert(pieces.len() >= 2);
        assert(lines(r)[0] == strip_cr(line));
        assert(declaring(lines(r)[0]));
    }
}

// ---- what declares the extension ----

/// The lines of two texts with a line break between them.
proof fn lemma_lines_concat(a: Seq<char>, b: Seq<char>)
    ensures
        lines(a + seq!['\n'] + b) == lines(a + seq!['\n']) + lines(b),
{
    let none = Seq::<char>::empty();
    lemma_split_concat(a, b, '\n');
    lemma_split_concat(a, none, '\n');
    lemma_split_by_len(b, is_char('\n'));
    assert(a + seq!['\n'] + none =~= a + seq!['\n']);
    assert(split(none, '\n') =~= seq![none]);
    assert(split(a + seq!['\n'], '\n').drop_last() =~= split(a, '\n'));
    let left = split(a, '\n');
    let right = split(b, '\n');
    assert((left + right).drop_last() =~= left + right.drop_last());
    assert((left + right).last() == right.last());
    assert(lines(a + seq!['\n'] + b) =~= lines(a + seq!['\n']) + lines(b));
}

/// A text declares the extension if and only if what stands up to some line break does, or
/// what stands after it.
proof fn lemma_declares_concat(a: Seq<char>, b: Seq<char>)
    ensures
        declares(a + seq!['\n'] + b) <==> declares(a + seq!['\n']) || declares(b),
{
    lemma_lines_concat(a, b);
    let left = lines(a + seq!['\n']);
    let right = lines(b);
    let all = lines(a + seq!['\n'] + b);
    if declares(a + seq!['\n'] + b) {
        let i = choose|i: int| 0 <= i < all.len() && declaring(#[trigger] all[i]);
        if i < left.len() {
            assert(declaring(left[i]));
        } else {
            assert(declaring(right[i - left.len()]));
        }
    }
    if declares(a + seq!['\n']) {
        let i = choose|i: int| 0 <= i < left.len() && declaring(#[trigger] left[i]);
        assert(declaring(all[i]));
    }
    if declares(b) {
        let i = choose|i: int| 0 <= i < right.len() && declaring(#[trigger] right[i]);
        assert(declaring(all[left.len() + i]));
    }
}

/// The same for whole lines `a`.
pub proof fn lemma_declares_lines(a: Seq<char>, b: Seq<char>)
    requires
        a.len() > 0 ==> a.last() == '\n',
    ensures
        declares(a + b) <==> declares(a) || declares(b),
{
    if a.len() > 0 {
        let head = a.drop_last();
        assert(head + seq!['\n'] =~= a);
        lemma_declares_concat(head, b);
    } else {
        assert(a + b =~= b);
        lemma_no_lines();
    }
}

/// Nothing declares nothing.
proof fn lemma_no_lines()
    ensures
        !declares(Seq::empty()),
{
    assert(lines(Seq::empty()) =~= Seq::empty());
}

/// A line whose first character behind `n` spaces is neither whitespace nor `r` declares
/// nothing.
proof fn lemma_plain_line(line: Seq<char>, n: int, rest: Seq<char>)
    requires
        !line.contains('\n'),
        0 <= n < line.len(),
        forall|i: int| 0 <= i < n ==> (#[trigger] line[i]) == ' ',
        !is_white(line[n]),
        line[n] != 'r',
    ensures
        declares(line + seq!['\n'] + rest) <==> declares(rest),
{
    let ended = line + seq!['\n'];
    let none = Seq::<char>::empty();
    lemma_split_concat(line, none, '\n');
    lemma_split_plain(line, '\n');
    assert(ended + none =~= ended);
    assert(split(none, '\n') =~= seq![none]);
    assert(split(ended, '\n') =~= seq![line, none]);
    let l = strip_cr(line);
    assert(lines(ended) =~= seq![l]) by {
        assert(seq![line, none].drop_last() =~= seq![line]);
    }
    assert(n < l.len() && l[n] == line[n]) by {
        assert(is_white('\r'));
    }
    let lead = l.take(n);
    let more = l.skip(n);
    assert(lead + more =~= l);
    lemma_trim_start(lead, more);
    lemma_spaces(lead);
    assert(trim_start(l) =~= more);
    reveal_strlit("require");
    assert(!starts_with(more, "require"@)) by {
        if starts_with(more, "require"@) {
            assert(more.subrange(0, 7)[0] == 'r');
        }
    }
    assert(!declaring(l));
    assert(!declares(ended)) by {
        if declares(ended) {
            let i = choose|i: int| 0 <= i < lines(ended).len() && declaring(#[trigger] lines(ended)[i]);
            assert(lines(ended)[i] == l);
        }
    }
    lemma_declares_concat(line, rest);
}

/// Of spaces alone nothing is left.
proof fn lemma_spaces(s: Seq<char>)
    requires
        forall|i: int| 0 <= i < s.len() ==> (#[trigger] s[i]) == ' ',
    ensures
        trim_start(s) == Seq::<char>::empty(),
    decreases s.len(),
{
    if s.len() > 0 {
        let rest = s.skip(1);
        assert forall|i: int| 0 <= i < rest.len() implies (#[trigger] rest[i]) == ' ' by {
            assert(rest[i] == s[i + 1]);
        }
        lemma_spaces(rest);
        assert(is_white(s[0]));
    } else {
        assert(s =~= Seq::empty());
    }
}

/// The rule is written on lines of its own: none of its texts holds a line break.
pub open spec fn on_own_lines(rule: SieveRuleView) -> bool {
    &&& match rule.test {
        SieveTestView::HeaderContains { header, value } => !header.contains('\n')
            && !value.contains('\n'),
        SieveTestView::AddressDomain { header, domain } => !header.contains('\n')
            && !domain.contains('\n'),
        SieveTestView::AddressIs { header, address } => !header.contains('\n')
            && !address.contains('\n'),
    }
    &&& !rule.fileinto.contains('\n')
    &&& rule.comment matches Some(c) ==> !c.contains('\n')
}

/// Text without a line break, joined to such text, has none.
pub proof fn lemma_no_break(a: Seq<char>, b: Seq<char>)
    requires
        !a.contains('\n'),
        !b.contains('\n'),
    ensures
        !(a + b).contains('\n'),
{
    if (a + b).contains('\n') {
        let i = (a + b).index_of('\n');
        if i < a.len() {
            assert(a[i] == '\n');
        } else {
            assert(b[i - a.len()] == '\n');
        }
    }
}

/// Quoting adds no line break.
proof fn lemma_quoted_no_break(s: Seq<char>)
    requires
        !s.contains('\n'),
    ensures
        !quoted(s).contains('\n'),
{
    lemma_escaped_no_break(s);
    let q = seq!['"'];
    assert(q[0] == '"');
    lemma_no_break(q, escaped(s));
    lemma_no_break(q + escaped(s), q);
}

proof fn lemma_escaped_no_break(s: Seq<char>)
    requires
        !s.contains('\n'),
    ensures
        !escaped(s).contains('\n'),
    decreases s.len(),
{
    if s.len() > 0 {
        let rest = s.drop_last();
        if rest.contains('\n') {
            assert(s[rest.index_of('\n')] == '\n');
        }
        lemma_escaped_no_break(rest);
        assert(s[s.len() - 1] != '\n') by {
            if s[s.len() - 1] == '\n' {
                assert(s.contains('\n'));
            }
        }
        let tail = if s.last() == '"' || s.last() == '\\' {
            seq!['\\', s.last()]
        } else {
            seq![s.last()]
        };
        assert(!tail.contains('\n'));
        lemma_no_break(escaped(rest), tail);
        assert(escaped(s) =~= escaped(rest) + tail);
    }
}

/// The test of a rule is one line.
proof fn lemma_test_no_break(rule: SieveRuleView)
    requires
        on_own_lines(rule),
    ensures
        !test_text(rule.test).contains('\n'),
{
    reveal_strlit("header :contains ");
    reveal_strlit("address :domain :is ");
    reveal_strlit("address :all :is ");
    reveal_strlit(" ");
    let (kind, header, value) = match rule.test {
        SieveTestView::HeaderContains { header, value } => ("header :contains "@, header, value),
        SieveTestView::AddressDomain { header, domain } => (
            "address :domain :is "@,
            header,
            domain,
        ),
        SieveTestView::AddressIs { header, address } => ("address :all :is "@, header, address),
    };
    lemma_quoted_no_break(header);
    lemma_quoted_no_break(value);
    assert(!kind.contains('\n'));
    assert(!" "@.contains('\n'));
    lemma_no_break(kind, quoted(header));
    lemma_no_break(kind + quoted(header), " "@);
    lemma_no_break(kind + quoted(header) + " "@, quoted(value));
}

/// The lines of a rule declare nothing.
proof fn lemma_rule_declares_nothing(rule: SieveRuleView)
    requires
        on_own_lines(rule),
    ensures
        !declares(rule_text(rule) + "\n"@),
{
    reveal_strlit("# ");
    reveal_strlit("\n");
    reveal_strlit("if ");
    reveal_strlit(" {\n");
    reveal_strlit("    fileinto ");
    reveal_strlit(";\n");
    reveal_strlit("    stop;\n");
    reveal_strlit("}");
    let br = seq!['\n'];
    let none = Seq::<char>::empty();
    lemma_no_lines();
    // Built up from the last line to the first.
    let closing = seq!['}'];
    lemma_plain_line(closing, 0, none);
    let end = closing + br + none;
    let stop = seq![' ', ' ', ' ', ' ', 's', 't', 'o', 'p', ';'];
    let tail = if rule.stop {
        stop + br + end
    } else {
        end
    };
    if rule.stop {
        lemma_plain_line(stop, 4, end);
    }
    let lead = seq![' ', ' ', ' ', ' ', 'f', 'i', 'l', 'e', 'i', 'n', 't', 'o', ' '];
    let into = lead + quoted(rule.fileinto) + seq![';'];
    lemma_quoted_no_break(rule.fileinto);
    lemma_no_break(lead, quoted(rule.fileinto));
    lemma_no_break(lead + quoted(rule.fileinto), seq![';']);
    lemma_plain_line(into, 4, tail);
    let body = into + br + tail;
    let head = seq!['i', 'f', ' '];
    let test = head + test_text(rule.test) + seq![' ', '{'];
    lemma_test_no_break(rule);
    lemma_no_break(head, test_text(rule.test));
    lemma_no_break(head + test_text(rule.test), seq![' ', '{']);
    lemma_plain_line(test, 0, body);
    let whole = test + br + body;
    match rule.comment {
        Some(c) => {
            let mark = seq!['#', ' '];
            lemma_no_break(mark, c);
            lemma_plain_line(mark + c, 0, whole);
            assert(rule_text(rule) + "\n"@ =~= mark + c + br + whole);
        },
        None => {
            assert(rule_text(rule) + "\n"@ =~= whole);
        },
    }
}

/// Rules that are written on lines of their own declare nothing, though they speak of
/// `fileinto`.
pub proof fn law_rules_declare_nothing(rules: Seq<SieveRuleView>)
    requires
        forall|i: int| 0 <= i < rules.len() ==> on_own_lines(#[trigger] rules[i]),
    ensures
        !declares(rules_text(rules)),
    decreases rules.len(),
{
    lemma_no_lines();
    if rules.len() > 0 {
        let fewer = rules.drop_last();
        assert forall|i: int| 0 <= i < fewer.len() implies on_own_lines(#[trigger] fewer[i]) by {
            assert(fewer[i] == rules[i]);
        }
        law_rules_declare_nothing(fewer);
        lemma_rules_end(fewer);
        reveal_strlit("\n");
        let some = rules_text(fewer);
        let last = rule_text(rules.last()) + "\n"@;
        lemma_rule_declares_nothing(rules.last());
        let gap = if rules.len() > 1 {
            "\n"@
        } else {
            Seq::empty()
        };
        let none = Seq::<char>::empty();
        assert(!declares("\n"@)) by {
            lemma_declares_lines("\n"@, none);
            assert("\n"@ =~= none + seq!['\n']);
            lemma_split_concat(none, none, '\n');
            assert(none + seq!['\n'] + none =~= "\n"@);
            assert(split(none, '\n') =~= seq![none]);
            let ls = lines("\n"@);
            assert(ls =~= seq![none]) by {
                assert((seq![none] + seq![none]).drop_last() =~= seq![none]);
            }
            reveal_strlit("require");
            assert(!declaring(none));
            assert forall|i: int| 0 <= i < ls.len() implies !declaring(#[trigger] ls[i]) by {
                assert(ls[i] == none);
            }
        }
        lemma_declares_lines(gap, last);
        lemma_declares_lines(some, gap + last);
        assert(rules_text(rules) =~= some + (gap + last));
    }
}

/// A script with a block declares the extension before the block, in it, or after it.
proof fn lemma_declares_around(head: Seq<char>, rules: Seq<SieveRuleView>, tail: Seq<char>)
    ensures
        declares(head + block_text(rules) + tail) <==> declares(head + BEGIN_MARKER@ + "\n"@)
            || declares(rules_text(rules)) || declares(END_MARKER@ + tail),
{
    reveal_strlit("\n");
    lemma_rules_end(rules);
    let top = head + BEGIN_MARKER@ + "\n"@;
    let inner = rules_text(rules);
    let bottom = END_MARKER@ + tail;
    lemma_declares_lines(inner, bottom);
    assert(top.last() == '\n');
    lemma_declares_lines(top, inner + bottom);
    assert(head + block_text(rules) + tail =~= top + (inner + bottom));
}

// ---- what stays ----

/// The script has a managed block: the first begin marker comes before the first end
/// marker.
pub open spec fn managed(script: Seq<char>) -> bool {
    match (find(script, BEGIN_MARKER@), find(script, END_MARKER@)) {
        (Some(b), Some(e)) => e > b,
        _ => false,
    }
}

/// What stands before and after the managed block of a script; without one, before and
/// after the place where it goes.
pub open spec fn around(script: Seq<char>) -> (Seq<char>, Seq<char>) {
    if managed(script) {
        (
            script.take(find(script, BEGIN_MARKER@)->0),
            script.skip(find(script, END_MARKER@)->0 + END_MARKER@.len()),
        )
    } else {
        let head = trim_end(script);
        let gap = if head.len() > 0 {
            "\n\n"@
        } else {
            Seq::empty()
        };
        (head + gap, "\n"@)
    }
}

/// Hand-written text stays: the merged script is what stood around the managed block,
/// with the new block in its place, and at most a `require` put at the top, where leading
/// whitespace gives way to it.
pub proof fn law_merge_keeps_handwritten(existing: Seq<char>, rules: Seq<SieveRuleView>)
    ensures
        ({
            let (head, tail) = around(existing);
            let block = block_text(rules);
            ||| merged(existing, rules) == head + block + tail
            ||| merged(existing, rules) == require_text() + trim_start(head) + block + tail
        }),
{
    let (head, tail) = around(existing);
    let block = block_text(rules);
    let s = placed_block(existing, block);
    assert(s =~= head + block + tail);
    lemma_begin_marker();
    let more = block + tail;
    assert(more[0] == '#');
    lemma_trim_start(head, more);
    assert(head + block + tail =~= head + more);
    assert(require_text() + (trim_start(head) + more) =~= require_text() + trim_start(head)
        + block + tail);
}

/// Neither marker stands before `head.len()` in `head` followed by the begin marker.
spec fn unmarked(head: Seq<char>) -> bool {
    forall|k: int|
        0 <= k < head.len() ==> !(#[trigger] occurs_at(head + BEGIN_MARKER@, BEGIN_MARKER@, k))
            && !occurs_at(head + BEGIN_MARKER@, END_MARKER@, k)
}

/// The rules of a block end with a line break.
proof fn lemma_rules_end(rules: Seq<SieveRuleView>)
    ensures
        rules_text(rules).len() > 0 ==> rules_text(rules).last() == '\n',
{
    reveal_strlit("\n");
}

/// After unmarked text, a generated block is found where it stands.
proof fn lemma_block_found(head: Seq<char>, rules: Seq<SieveRuleView>, tail: Seq<char>)
    requires
        unmarked(head),
        !has_text(rules_text(rules), END_MARKER@),
    ensures
        managed(head + block_text(rules) + tail),
        around(head + block_text(rules) + tail) == (head, tail),
{
    lemma_begin_marker();
    lemma_end_marker();
    lemma_rules_end(rules);
    reveal_strlit("\n");
    let begin = BEGIN_MARKER@;
    let end = END_MARKER@;
    let inner = rules_text(rules);
    let block = block_text(rules);
    let s = head + block + tail;
    let h = head.len() as int;
    let bl = begin.len() as int;
    let e0 = h + bl + 1 + inner.len();
    assert(s.subrange(h, h + bl) =~= begin);
    assert forall|k: int| 0 <= k < h implies !occurs_at(s, begin, k) by {
        if occurs_at(s, begin, k) {
            assert((head + begin).subrange(k, k + bl) =~= s.subrange(k, k + bl));
            assert(occurs_at(head + begin, begin, k));
        }
    }
    lemma_find_is(s, begin, h);
    assert(s.subrange(e0, e0 + end.len()) =~= end);
    assert forall|k: int| 0 <= k < e0 implies !occurs_at(s, end, k) by {
        if occurs_at(s, end, k) {
            let w = s.subrange(k, k + end.len());
            assert(w[0] == '#' && w[2] == 'E');
            assert(s[k] == '#' && s[k + 2] == 'E');
            if k < h {
                assert((head + begin).subrange(k, k + end.len()) =~= w);
                assert(!occurs_at(head + begin, begin, k));
                assert(occurs_at(head + begin, end, k));
                assert(false);
            } else if k == h {
                assert(s[k + 2] == begin[2]);
            } else if k < h + bl {
                assert(s[k] == begin[k - h]);
            } else if k == h + bl {
                assert(s[k] == '\n');
            } else {
                let j = k - h - bl - 1;
                if j + end.len() <= inner.len() {
                    assert(inner.subrange(j, j + end.len()) =~= w);
                    assert(occurs_at(inner, end, j));
                } else {
                    let l = inner.len() - 1;
                    assert(s[h + bl + 1 + l] == block[bl + 1 + l]);
                    assert(block[bl + 1 + l] == inner[l]);
                    assert(w[l - j] == s[k + (l - j)]);
                    assert(end[l - j] == '\n');
                    assert(false);
                }
            }
        }
    }
    lemma_find_is(s, end, e0);
    assert(s.take(h) =~= head);
    assert(s.skip(e0 + end.len()) =~= tail);
}

/// What stands before the place of the block is unmarked, if the markers of the script
/// are paired or absent.
#[verifier::rlimit(40)]
proof fn lemma_head_unmarked(existing: Seq<char>)
    requires
        managed(existing) || (!has_text(existing, BEGIN_MARKER@) && !has_text(
            existing,
            END_MARKER@,
        )),
    ensures
        unmarked(around(existing).0),
{
    lemma_begin_marker();
    lemma_end_marker();
    let begin = BEGIN_MARKER@;
    let end = END_MARKER@;
    lemma_find(existing, begin);
    lemma_find(existing, end);
    let head = around(existing).0;
    let both = head + begin;
    assert forall|k: int| 0 <= k < head.len() implies !(#[trigger] occurs_at(both, begin, k))
        && !occurs_at(both, end, k) by {
        if managed(existing) {
            let b = find(existing, begin)->0;
            assert(existing.subrange(b, b + begin.len()) == begin);
            assert(both =~= existing.take(b + begin.len()));
            if occurs_at(both, begin, k) {
                assert(existing.subrange(k, k + begin.len()) =~= both.subrange(
                    k,
                    k + begin.len(),
                ));
                assert(occurs_at(existing, begin, k));
            }
            if occurs_at(both, end, k) {
                assert(existing.subrange(k, k + end.len()) =~= both.subrange(k, k + end.len()));
                assert(occurs_at(existing, end, k));
            }
        } else {
            reveal_strlit("\n\n");
            let text = trim_end(existing);
            lemma_trim_end_prefix(existing);
            let t = text.len() as int;
            assert(t > 0);
            assert(both[t] == '\n' && both[t + 1] == '\n');
            assert(both.take(t) =~= existing.take(t));
            if occurs_at(both, begin, k) {
                lemma_no_marker(existing, both, begin, t, k);
            }
            if occurs_at(both, end, k) {
                lemma_no_marker(existing, both, end, t, k);
            }
        }
    }
}

/// A marker in a text that is cut off by a line break stands in the text before it.
proof fn lemma_no_marker(
    existing: Seq<char>,
    both: Seq<char>,
    marker: Seq<char>,
    t: int,
    k: int,
)
    requires
        0 <= t <= existing.len(),
        t + 2 <= both.len(),
        both.take(t) == existing.take(t),
        both[t] == '\n',
        both[t + 1] == '\n',
        marker.len() > 0,
        marker[0] == '#',
        forall|i: int| 0 <= i < marker.len() ==> (#[trigger] marker[i]) != '\n',
        0 <= k < t + 2,
        occurs_at(both, marker, k),
    ensures
        has_text(existing, marker),
{
    let w = both.subrange(k, k + marker.len());
    assert(w[0] == '#');
    if k + marker.len() <= t {
        assert(existing.subrange(k, k + marker.len()) =~= w) by {
            assert forall|i: int| 0 <= i < marker.len() implies existing[k + i] == w[i] by {
                assert(both.take(t)[k + i] == existing.take(t)[k + i]);
                assert(both.take(t)[k + i] == both[k + i]);
                assert(existing.take(t)[k + i] == existing[k + i]);
                assert(w[i] == both[k + i]);
            }
        }
        assert(occurs_at(existing, marker, k));
    } else if k < t {
        assert(w[t - k] == '\n');
        assert(marker[t - k] == '\n');
    } else {
        assert(both[k] == '\n');
    }
}

/// Merging again replaces the managed block and nothing else: the block that a merge put
/// into the script is the one that the next merge finds. The markers of the script must
/// be paired or absent, and the rules must not spell the end marker.
pub proof fn law_merge_replaces(
    existing: Seq<char>,
    first: Seq<SieveRuleView>,
    second: Seq<SieveRuleView>,
)
    requires
        managed(existing) || (!has_text(existing, BEGIN_MARKER@) && !has_text(
            existing,
            END_MARKER@,
        )),
        !has_text(rules_text(first), END_MARKER@),
    ensures
        ({
            let once = merged(existing, first);
            let (head, tail) = around(once);
            &&& managed(once)
            &&& once == head + block_text(first) + tail
            &&& merged(once, second) == with_require(head + block_text(second) + tail)
        }),
{
    let (head, tail) = around(existing);
    let block = block_text(first);
    let s = placed_block(existing, block);
    let once = merged(existing, first);
    lemma_begin_marker();
    lemma_head_unmarked(existing);
    assert(s =~= head + block + tail);
    if declares(s) {
        lemma_block_found(head, first, tail);
        assert(placed_block(once, block_text(second)) =~= head + block_text(second) + tail);
    } else {
        let more = block + tail;
        assert(more[0] == '#');
        lemma_trim_start(head, more);
        assert(s =~= head + more);
        let top = require_text() + trim_start(head);
        assert(once =~= top + block + tail);
        lemma_top_unmarked(head);
        lemma_block_found(top, first, tail);
        assert(placed_block(once, block_text(second)) =~= top + block_text(second) + tail);
    }
}

/// A `require` at the top leaves unmarked text unmarked.
proof fn lemma_top_unmarked(head: Seq<char>)
    requires
        unmarked(head),
    ensures
        unmarked(require_text() + trim_start(head)),
{
    lemma_begin_marker();
    lemma_end_marker();
    lemma_require_text();
    lemma_trim_start(head, head);
    let begin = BEGIN_MARKER@;
    let end = END_MARKER@;
    let p = require_text();
    let rest = trim_start(head);
    let d = head.len() - rest.len();
    let top = p + rest;
    let both = top + begin;
    assert forall|k: int| 0 <= k < top.len() implies !(#[trigger] occurs_at(both, begin, k))
        && !occurs_at(both, end, k) by {
        if k < p.len() {
            assert(both[k] == p[k]);
            if occurs_at(both, begin, k) {
                assert(both.subrange(k, k + begin.len())[0] == '#');
            }
            if occurs_at(both, end, k) {
                assert(both.subrange(k, k + end.len())[0] == '#');
            }
        } else {
            let j = k - p.len() + d;
            if occurs_at(both, begin, k) {
                assert((head + begin).subrange(j, j + begin.len()) =~= both.subrange(
                    k,
                    k + begin.len(),
                ));
                assert(occurs_at(head + begin, begin, j));
            }
            if occurs_at(both, end, k) {
                assert((head + begin).subrange(j, j + end.len()) =~= both.subrange(
                    k,
                    k + end.len(),
                ));
                assert(!occurs_at(head + begin, begin, j) && occurs_at(head + begin, end, j));
            }
        }
    }
}

/// Only the last merge counts: merging some rules and then others comes to the same as
/// merging the others alone. The markers of the script must be paired or absent, the first
/// rules must not spell the end marker, and the others must not declare the extension
/// themselves.
pub proof fn law_last_merge_counts(
    existing: Seq<char>,
    first: Seq<SieveRuleView>,
    second: Seq<SieveRuleView>,
)
    requires
        managed(existing) || (!has_text(existing, BEGIN_MARKER@) && !has_text(
            existing,
            END_MARKER@,
        )),
        !has_text(rules_text(first), END_MARKER@),
        !declares(rules_text(second)),
    ensures
        merged(merged(existing, first), second) == merged(existing, second),
{
    let (head, tail) = around(existing);
    let block = block_text(first);
    let other = block_text(second);
    let s = placed_block(existing, block);
    let once = merged(existing, first);
    lemma_begin_marker();
    lemma_head_unmarked(existing);
    assert(s =~= head + block + tail);
    assert(placed_block(existing, other) =~= head + other + tail);
    if declares(s) {
        lemma_block_found(head, first, tail);
        assert(placed_block(once, other) =~= head + other + tail);
    } else {
        let more = block + tail;
        assert(more[0] == '#');
        lemma_trim_start(head, more);
        assert(s =~= head + more);
        let top = require_text() + trim_start(head);
        assert(once =~= top + block + tail);
        lemma_top_unmarked(head);
        lemma_block_found(top, first, tail);
        assert(placed_block(once, other) =~= top + other + tail);
        // Without the first rules the script declares nothing either.
        lemma_declares_around(head, first, tail);
        lemma_declares_around(head, second, tail);
        let rest = other + tail;
        assert(rest[0] == '#');
        lemma_trim_start(head, rest);
        assert(head + other + tail =~= head + rest);
        assert(top + other + tail =~= require_text() + trim_start(head + rest));
        law_merge_declares(existing, second);
        assert(declares(top + other + tail));
    }
}

/// Merging into an empty script gives the standalone script: the `require`, and the block,
/// which starts with the begin marker and ends with the end marker. The rules must not
/// declare the extension themselves.
pub proof fn law_merge_into_empty(rules: Seq<SieveRuleView>)
    requires
        !declares(rules_text(rules)),
    ensures
        merged(Seq::empty(), rules) == script_text(rules),
        starts_with(block_text(rules), BEGIN_MARKER@),
        ends_with(block_text(rules), END_MARKER@),
{
    let none = Seq::<char>::empty();
    let block = block_text(rules);
    let begin = BEGIN_MARKER@;
    let end = END_MARKER@;
    lemma_begin_marker();
    lemma_end_marker();
    lemma_find(none, begin);
    lemma_find(none, end);
    reveal_strlit("\n");
    reveal_strlit("\n\n");
    assert(block.subrange(0, begin.len() as int) =~= begin);
    assert(block.subrange(block.len() - end.len(), block.len() as int) =~= end);
    assert(trim_end(none) =~= none);
    let s = placed_block(none, block);
    assert(s =~= none + block + "\n"@);
    lemma_declares_around(none, rules, "\n"@);
    lemma_no_lines();
    assert(!declares(none + begin + "\n"@)) by {
        assert(!begin.contains('\n'));
        lemma_plain_line(begin, 0, none);
        assert(none + begin + "\n"@ =~= begin + seq!['\n'] + none);
    }
    assert(!declares(end + "\n"@)) by {
        assert(!end.contains('\n'));
        lemma_plain_line(end, 0, none);
        assert(end + "\n"@ =~= end + seq!['\n'] + none);
    }
    assert(s[0] == '#');
    assert(trim_start(s) == s);
    lemma_require_line();
    assert(merged(none, rules) =~= script_text(rules));
}

/// The `require` of a standalone script is the one that merging puts at the top.
pub proof fn lemma_require_line()
    ensures
        require_line() + "\n\n"@ == require_text(),
{
    reveal_strlit("fileinto");
    reveal_strlit("require [");
    reveal_strlit("];");
    reveal_strlit("\n\n");
    reveal_strlit("require [\"fileinto\"];\n\n");
    lemma_escaped_plain("fileinto"@);
    assert(require_line() + "\n\n"@ =~= require_text());
}

/// Text without quotes and backslashes needs no escaping.
proof fn lemma_escaped_plain(s: Seq<char>)
    requires
        forall|i: int| 0 <= i < s.len() ==> (#[trigger] s[i]) != '"' && s[i] != '\\',
    ensures
        escaped(s) == s,
    decreases s.len(),
{
    if s.len() > 0 {
        let rest = s.drop_last();
        assert forall|i: int| 0 <= i < rest.len() implies (#[trigger] rest[i]) != '"' && rest[i]
            != '\\' by {
            assert(rest[i] == s[i]);
        }
        lemma_escaped_plain(rest);
        assert(s.last() == s[s.len() - 1]);
        assert(rest.push(s.last()) =~= s);
    } else {
        assert(escaped(s) =~= s);
    }
}

/// Merging the same rules again changes nothing. The markers of the script must be paired
/// or absent, and the rules must not spell the end marker.
pub proof fn law_merge_idempotent(existing: Seq<char>, rules: Seq<SieveRuleView>)
    requires
        managed(existing) || (!has_text(existing, BEGIN_MARKER@) && !has_text(
            existing,
            END_MARKER@,
        )),
        !has_text(rules_text(rules), END_MARKER@),
    ensures
        merged(merged(existing, rules), rules) == merged(existing, rules),
{
    law_merge_replaces(existing, rules, rules);
    law_merge_declares(existing, rules);
}

} // verus!
