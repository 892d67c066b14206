//! What a generated script is for: every rule is in it, in order, and says what mail it is
//! about and where that goes.

use vstd::prelude::*;

use crate::managesieve::laws::lemma_piece_stands;
use crate::model::{SieveRuleView, SieveTestView};
use crate::sieve::laws::{
    around, lemma_begin_marker, lemma_declares_lines, lemma_no_break, lemma_require_line,
};
use crate::sieve::{
    block_text, declares, declaring, merged, placed_block, quoted, require_text, rule_text,
    rules_text, script_text, test_text, BEGIN_MARKER, END_MARKER,
};
use crate::text::laws::{law_lines, law_parts_are_found};
use crate::text::{
    has_text, is_char, is_white, lemma_split_by_len, lemma_trim_start, lines, occurs_at, split,
    starts_with, strip_cr, trim_start,
};

verus! {

/// The parts stand in the text one after the other: the first at `start`, each followed by
/// a line break and, but for the last, by a blank line; the last ends at `end`.
pub open spec fn parts_stand(
    text: Seq<char>,
    parts: Seq<Seq<char>>,
    at: Seq<int>,
    start: int,
    end: int,
) -> bool {
    &&& at.len() == parts.len()
    &&& parts.len() == 0 ==> start == end
    &&& parts.len() > 0 ==> at[0] == start
    &&& forall|i: int|
        #![trigger parts[i]]
        0 <= i < parts.len() ==> occurs_at(text, parts[i], at[i])
    &&& forall|i: int|
        #![trigger parts[i]]
        0 <= i < parts.len() ==> {
            let stop = at[i] + parts[i].len();
            &&& stop < end
            &&& text[stop] == '\n'
            &&& i < parts.len() - 1 ==> text[stop + 1] == '\n' && at[i + 1] == stop + 2
            &&& i == parts.len() - 1 ==> end == stop + 1
        }
}

/// The texts of rules.
pub open spec fn texts_of(rules: Seq<SieveRuleView>) -> Seq<Seq<char>> {
    rules.map_values(|r: SieveRuleView| rule_text(r))
}

/// One more part.
proof fn lemma_part_added(
    some: Seq<char>,
    parts: Seq<Seq<char>>,
    at: Seq<int>,
    part: Seq<char>,
    gap: Seq<char>,
    text: Seq<char>,
)
    requires
        parts_stand(some, parts, at, 0, some.len() as int),
        gap == if parts.len() > 0 {
            seq!['\n']
        } else {
            Seq::<char>::empty()
        },
        text == some + gap + part + seq!['\n'],
    ensures
        parts_stand(
            text,
            parts.push(part),
            at.push((some.len() + gap.len()) as int),
            0,
            text.len() as int,
        ),
{
    let n = parts.len() as int;
    let all = parts.push(part);
    let place = (some.len() + gap.len()) as int;
    let now = at.push(place);
    assert(text.subrange(place, place + part.len()) =~= part);
    assert(text[place + part.len()] == '\n');
    assert forall|i: int|
        #![trigger all[i]]
        0 <= i < all.len() implies occurs_at(text, all[i], now[i]) by {
        if i < n {
            assert(now[i] == at[i]);
            assert(all[i] == parts[i]);
            let l = parts[i].len();
            assert(text.subrange(at[i], at[i] + l) =~= some.subrange(at[i], at[i] + l));
        }
    }
    assert forall|i: int|
        #![trigger all[i]]
        0 <= i < all.len() implies {
        let stop = now[i] + all[i].len();
        &&& stop < text.len()
        &&& text[stop] == '\n'
        &&& i < all.len() - 1 ==> text[stop + 1] == '\n' && now[i + 1] == stop + 2
        &&& i == all.len() - 1 ==> text.len() == stop + 1
    } by {
        if i < n {
            assert(now[i] == at[i]);
            assert(all[i] == parts[i]);
            let stop = at[i] + parts[i].len();
            assert(text[stop] == some[stop]);
            if i < n - 1 {
                assert(now[i + 1] == at[i + 1]);
                assert(at[i + 1] == stop + 2);
                assert(occurs_at(some, parts[i + 1], at[i + 1]));
                assert(text[stop + 1] == some[stop + 1]);
            } else {
                assert(text[stop + 1] == gap[0]);
            }
        }
    }
}

proof fn lemma_rules_stand(rules: Seq<SieveRuleView>) -> (at: Seq<int>)
    ensures
        parts_stand(rules_text(rules), texts_of(rules), at, 0, rules_text(rules).len() as int),
    decreases rules.len(),
{
    reveal_strlit("\n");
    let text = rules_text(rules);
    if rules.len() == 0 {
        Seq::empty()
    } else {
        let less = rules.drop_last();
        let some = rules_text(less);
        let before = lemma_rules_stand(less);
        let gap = if rules.len() > 1 {
            "\n"@
        } else {
            Seq::empty()
        };
        assert("\n"@ =~= seq!['\n']);
        let part = rule_text(rules.last());
        assert(texts_of(rules) =~= texts_of(less).push(part));
        lemma_part_added(some, texts_of(less), before, part, gap, text);
        before.push((some.len() + gap.len()) as int)
    }
}

/// Parts that stand in a text stand in a longer one.
proof fn lemma_shifted(
    inner: Seq<char>,
    parts: Seq<Seq<char>>,
    before: Seq<int>,
    head: Seq<char>,
    tail: Seq<char>,
) -> (at: Seq<int>)
    requires
        parts_stand(inner, parts, before, 0, inner.len() as int),
    ensures
        parts_stand(
            head + inner + tail,
            parts,
            at,
            head.len() as int,
            (head.len() + inner.len()) as int,
        ),
{
    let h = head.len() as int;
    let text = head + inner + tail;
    let at = Seq::new(parts.len(), |i: int| before[i] + h);
    assert forall|i: int|
        #![trigger parts[i]]
        0 <= i < parts.len() implies occurs_at(text, parts[i], at[i]) by {
        assert(occurs_at(inner, parts[i], before[i]));
        let l = parts[i].len();
        assert(text.subrange(at[i], at[i] + l) =~= inner.subrange(before[i], before[i] + l));
    }
    assert forall|i: int|
        #![trigger parts[i]]
        0 <= i < parts.len() implies {
        let stop = at[i] + parts[i].len();
        &&& stop < h + inner.len()
        &&& text[stop] == '\n'
        &&& i < parts.len() - 1 ==> text[stop + 1] == '\n' && at[i + 1] == stop + 2
        &&& i == parts.len() - 1 ==> h + inner.len() == stop + 1
    } by {
        let stop = before[i] + parts[i].len();
        assert(occurs_at(inner, parts[i], before[i]));
        assert(text[stop + h] == inner[stop]);
        if i < parts.len() - 1 {
            assert(before[i + 1] == stop + 2);
            assert(occurs_at(inner, parts[i + 1], before[i + 1]));
            assert(text[stop + h + 1] == inner[stop + 1]);
        }
    }
    at
}

/// Every rule is in the script. The managed block is the begin marker on a line of its own,
/// then the text of every rule, in order and with a blank line between any two, and the end
/// marker on the last line. A block for no rules is the two markers.
pub proof fn law_every_rule_rendered(rules: Seq<SieveRuleView>)
    ensures
        ({
            let block = block_text(rules);
            let start = BEGIN_MARKER@.len() as int + 1;
            let end = block.len() - END_MARKER@.len();
            &&& occurs_at(block, BEGIN_MARKER@, 0)
            &&& block[start - 1] == '\n'
            &&& occurs_at(block, END_MARKER@, end)
            &&& exists|at: Seq<int>| #[trigger]
                parts_stand(block, texts_of(rules), at, start, end)
        }),
        forall|i: int|
            0 <= i < rules.len() ==> has_text(block_text(rules), rule_text(#[trigger] rules[i])),
{
    reveal_strlit("\n");
    let block = block_text(rules);
    let head = BEGIN_MARKER@ + "\n"@;
    let start = head.len() as int;
    let end = block.len() - END_MARKER@.len();
    let inner = rules_text(rules);
    assert(block =~= head + inner + END_MARKER@);
    assert(block.subrange(0, BEGIN_MARKER@.len() as int) =~= BEGIN_MARKER@);
    assert(block.subrange(end, block.len() as int) =~= END_MARKER@);
    let before = lemma_rules_stand(rules);
    let at = lemma_shifted(inner, texts_of(rules), before, head, END_MARKER@);
    assert(parts_stand(block, texts_of(rules), at, start, end));
    assert forall|i: int| 0 <= i < rules.len() implies has_text(
        block,
        rule_text(#[trigger] rules[i]),
    ) by {
        let part = texts_of(rules)[i];
        assert(at.len() == rules.len());
        assert(occurs_at(block, part, at[i]));
        assert(part == rule_text(rules[i]));
    }
}

/// The kind of a test, the header it looks at and what it asks for.
pub open spec fn test_parts(test: SieveTestView) -> (Seq<char>, Seq<char>, Seq<char>) {
    match test {
        SieveTestView::HeaderContains { header, value } => ("header :contains "@, header, value),
        SieveTestView::AddressDomain { header, domain } => (
            "address :domain :is "@,
            header,
            domain,
        ),
        SieveTestView::AddressIs { header, address } => ("address :all :is "@, header, address),
    }
}

/// Regrouping the parts of a rule.
proof fn lemma_regrouped(
    c: Seq<char>,
    i: Seq<char>,
    t: Seq<char>,
    b: Seq<char>,
    f: Seq<char>,
    q: Seq<char>,
    e: Seq<char>,
    s: Seq<char>,
    z: Seq<char>,
)
    ensures
        c + i + t + b + f + q + e + s + z == c + (i + t + (b + f) + q + (e + s + z)),
{
    assert(c + i + t + b + f + q + e + s + z =~= c + (i + t + (b + f) + q + (e + s + z)));
}

proof fn lemma_regrouped_test(
    i: Seq<char>,
    k: Seq<char>,
    h: Seq<char>,
    g: Seq<char>,
    v: Seq<char>,
)
    ensures
        i + (k + h + g + v) == i + k + h + g + v,
{
    assert(i + (k + h + g + v) =~= i + k + h + g + v);
}

/// A rule says what it does: behind its comment, if it has one, an `if` with its test, and
/// in the braces the folder to file into, and `stop` if and only if it is to stop there.
/// The header, what it is to hold and the folder are quoted strings.
pub proof fn law_rule_says(rule: SieveRuleView)
    ensures
        ({
            let (kind, header, value) = test_parts(rule.test);
            let body = "if "@ + kind + quoted(header) + " "@ + quoted(value) + " {\n    fileinto "@
                + quoted(rule.fileinto) + (if rule.stop {
                ";\n    stop;\n}"@
            } else {
                ";\n}"@
            });
            rule_text(rule) == match rule.comment {
                Some(c) => "# "@ + c + "\n"@ + body,
                None => body,
            }
        }),
{
    let (kind, header, value) = test_parts(rule.test);
    let comment = match rule.comment {
        Some(c) => "# "@ + c + "\n"@,
        None => Seq::empty(),
    };
    let stop = if rule.stop {
        "    stop;\n"@
    } else {
        Seq::empty()
    };
    let last = if rule.stop {
        ";\n    stop;\n}"@
    } else {
        ";\n}"@
    };
    let test = test_text(rule.test);
    assert(test == kind + quoted(header) + " "@ + quoted(value));
    lemma_endings();
    lemma_regrouped(
        comment,
        "if "@,
        test,
        " {\n"@,
        "    fileinto "@,
        quoted(rule.fileinto),
        ";\n"@,
        stop,
        "}"@,
    );
    lemma_regrouped_test("if "@, kind, quoted(header), " "@, quoted(value));
    let body = "if "@ + test + (" {\n"@ + "    fileinto "@) + quoted(rule.fileinto) + (";\n"@ + stop
        + "}"@);
    assert(rule_text(rule) == comment + body);
    if rule.comment is None {
        lemma_nothing_before(body);
    }
}

proof fn lemma_nothing_before(s: Seq<char>)
    ensures
        Seq::<char>::empty() + s == s,
{
    assert(Seq::<char>::empty() + s =~= s);
}

proof fn lemma_endings()
    ensures
        " {\n"@ + "    fileinto "@ == " {\n    fileinto "@,
        ";\n"@ + "    stop;\n"@ + "}"@ == ";\n    stop;\n}"@,
        ";\n"@ + Seq::empty() + "}"@ == ";\n}"@,
{
    reveal_strlit(" {\n");
    reveal_strlit("    fileinto ");
    reveal_strlit(" {\n    fileinto ");
    reveal_strlit(";\n");
    reveal_strlit("    stop;\n");
    reveal_strlit("}");
    reveal_strlit(";\n    stop;\n}");
    reveal_strlit(";\n}");
    assert(" {\n"@ + "    fileinto "@ =~= " {\n    fileinto "@);
    assert(";\n"@ + "    stop;\n"@ + "}"@ =~= ";\n    stop;\n}"@);
    assert(";\n"@ + Seq::empty() + "}"@ =~= ";\n}"@);
}

/// A standalone script declares the extension that its rules use, then has the block.
pub proof fn law_script_says(rules: Seq<SieveRuleView>)
    ensures
        script_text(rules) == "require [\"fileinto\"];\n\n"@ + block_text(rules) + "\n"@,
{
    lemma_require_line();
}

// ---- what declares the extension ----

/// A `require` that names `fileinto` declares it, on whatever line it stands and however
/// far it is indented.
pub proof fn law_require_declares(
    before: Seq<char>,
    indent: Seq<char>,
    x: Seq<char>,
    y: Seq<char>,
    after: Seq<char>,
)
    requires
        before.len() > 0 ==> before.last() == '\n',
        forall|i: int| 0 <= i < indent.len() ==> is_white(#[trigger] indent[i]) && indent[i] != '\n',
        !x.contains('\n'),
        !y.contains('\n'),
        y.len() > 0 ==> y.last() != '\r',
    ensures
        declares(
            before + (indent + "require"@ + x + "fileinto"@ + y) + seq!['\n'] + after,
        ),
{
    let line = indent + "require"@ + x + "fileinto"@ + y;
    lemma_words();
    lemma_declaring_line(indent, "require"@, x, "fileinto"@, y);
    lemma_line_declares(before, line, after);
}

/// A line that declares the extension does so wherever it stands.
proof fn lemma_line_declares(before: Seq<char>, line: Seq<char>, after: Seq<char>)
    requires
        before.len() > 0 ==> before.last() == '\n',
        !line.contains('\n'),
        line.len() > 0,
        line.last() != '\r',
        declaring(line),
    ensures
        declares(before + line + seq!['\n'] + after),
{
    let tail = line + seq!['\n'] + after;
    law_lines(line, after);
    assert(lines(tail)[0] == line);
    assert(declares(tail));
    lemma_declares_lines(before, tail);
    assert(before + tail =~= before + line + seq!['\n'] + after);
}

proof fn lemma_words()
    ensures
        "require"@.len() > 0,
        !is_white("require"@[0]),
        !"require"@.contains('\n'),
        "fileinto"@.len() > 0,
        !"fileinto"@.contains('\n'),
        "fileinto"@.last() != '\r',
{
    reveal_strlit("require");
    reveal_strlit("fileinto");
    assert("require"@[0] == 'r');
}

/// A line of an indentation, a word, some text, another word and some more text: it has no
/// line break, starts with the first word once trimmed, and holds the other.
#[verifier::rlimit(40)]
proof fn lemma_declaring_line(
    indent: Seq<char>,
    v: Seq<char>,
    x: Seq<char>,
    w: Seq<char>,
    y: Seq<char>,
)
    requires
        forall|i: int| 0 <= i < indent.len() ==> is_white(#[trigger] indent[i]) && indent[i] != '\n',
        v.len() > 0,
        !is_white(v[0]),
        !v.contains('\n'),
        !x.contains('\n'),
        w.len() > 0,
        !w.contains('\n'),
        w.last() != '\r',
        !y.contains('\n'),
        y.len() > 0 ==> y.last() != '\r',
    ensures
        ({
            let line = indent + v + x + w + y;
            &&& !line.contains('\n')
            &&& line.len() > 0 && line.last() != '\r'
            &&& starts_with(trim_start(line), v)
            &&& has_text(line, w)
        }),
{
    let line = indent + v + x + w + y;
    assert(!indent.contains('\n')) by {
        if indent.contains('\n') {
            let k = indent.index_of('\n');
            assert(indent[k] == '\n');
        }
    }
    lemma_no_break(indent, v);
    lemma_no_break(indent + v, x);
    lemma_no_break(indent + v + x, w);
    lemma_no_break(indent + v + x + w, y);
    let rest = v + (x + w + y);
    assert(line =~= indent + rest);
    lemma_unindented(indent, rest);
    law_parts_are_found(v, x + w + y, y);
    law_parts_are_found(indent + v + x, w, y);
    if y.len() > 0 {
        assert(line.last() == y.last());
    } else {
        assert(line.last() == w.last());
    }
}

/// Trimming at the start takes the indentation away.
pub proof fn lemma_unindented(indent: Seq<char>, rest: Seq<char>)
    requires
        forall|i: int| 0 <= i < indent.len() ==> is_white(#[trigger] indent[i]),
        rest.len() > 0,
        !is_white(rest[0]),
    ensures
        trim_start(indent + rest) == rest,
    decreases indent.len(),
{
    if indent.len() > 0 {
        let less = indent.skip(1);
        assert forall|i: int| 0 <= i < less.len() implies is_white(#[trigger] less[i]) by {
            assert(less[i] == indent[i + 1]);
        }
        lemma_unindented(less, rest);
        assert((indent + rest).skip(1) =~= less + rest);
        assert(is_white(indent[0]));
        assert((indent + rest)[0] == indent[0]);
    } else {
        assert(indent + rest =~= rest);
    }
}

/// A script in which `fileinto` does not occur, or `require` does not, declares nothing.
pub proof fn law_no_require_no_declaration(script: Seq<char>)
    requires
        !has_text(script, "require"@) || !has_text(script, "fileinto"@),
    ensures
        !declares(script),
{
    if declares(script) {
        let ls = lines(script);
        let i = choose|i: int| 0 <= i < ls.len() && declaring(#[trigger] ls[i]);
        let line = ls[i];
        lemma_line_stands(script, i);
        let cut = trim_start(line);
        lemma_trim_start(line, line);
        let d = line.len() - cut.len();
        assert(line.subrange(d, d + cut.len()) =~= cut);
        assert(occurs_at(line, cut, d));
        assert(occurs_at(cut, "require"@, 0));
        lemma_within(line, cut, "require"@);
        lemma_within(script, line, "require"@);
        lemma_within(script, line, "fileinto"@);
    }
}

/// What stands in a part stands in the whole.
proof fn lemma_within(s: Seq<char>, part: Seq<char>, pat: Seq<char>)
    requires
        has_text(s, part),
        has_text(part, pat),
    ensures
        has_text(s, pat),
{
    let k = choose|k: int| occurs_at(s, part, k);
    let j = choose|j: int| occurs_at(part, pat, j);
    assert(s.subrange(k, k + part.len()) == part);
    assert(s.subrange(k + j, k + j + pat.len()) =~= part.subrange(j, j + pat.len()));
    assert(occurs_at(s, pat, k + j));
}

/// A line stands in its text.
proof fn lemma_line_stands(s: Seq<char>, i: int)
    requires
        0 <= i < lines(s).len(),
    ensures
        has_text(s, lines(s)[i]),
{
    lemma_split_by_len(s, is_char('\n'));
    lemma_piece_stands(s, '\n', i);
    let piece = split(s, '\n')[i];
    let line = lines(s)[i];
    assert(line == piece || line == strip_cr(piece));
    assert(piece.subrange(0, line.len() as int) =~= line);
    assert(occurs_at(piece, line, 0));
    lemma_within(s, piece, line);
}

/// The `require` is put at the top if and only if the script would not declare the
/// extension without it. So a script that has one gets no second.
pub proof fn law_require_once(existing: Seq<char>, rules: Seq<SieveRuleView>)
    ensures
        ({
            let (head, tail) = around(existing);
            let script = head + block_text(rules) + tail;
            merged(existing, rules) == if declares(script) {
                script
            } else {
                "require [\"fileinto\"];\n\n"@ + trim_start(head) + block_text(rules) + tail
            }
        }),
{
    let (head, tail) = around(existing);
    let block = block_text(rules);
    let script = head + block + tail;
    let more = block + tail;
    assert(placed_block(existing, block) =~= script);
    lemma_begin_marker();
    assert(block[0] == BEGIN_MARKER@[0]);
    assert(more[0] == '#');
    lemma_trim_start(head, more);
    assert(script =~= head + more);
    assert(require_text() + (trim_start(head) + more) =~= require_text() + trim_start(head)
        + block + tail);
}

} // verus!
