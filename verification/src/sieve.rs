//! Render sorting rules to a Sieve script and merge them into an existing user script
//! without disturbing hand-written rules.
//!
//! Generated rules are wrapped in a delimited, tool-managed block so re-running the tool
//! replaces only its own output. A `require` for the extension the rules use is ensured
//! at the top of the script (Sieve requires all `require`s before any other command).

pub mod laws;
pub mod rendering;

use vstd::prelude::*;

use crate::model::{
    Cluster, ClusterView, Signal, SieveRule, SieveRuleView, SieveTest, SieveTestView,
};
use crate::number::{decimal, push_decimal};
use crate::seqs::all_views;
use crate::text::{
    append_chars, begins_with, contains_text, find, find_first, from_chars, has_text, join, joined,
    lines, slice, split_lines, starts_with, to_chars, trim_end, trim_start, trimmed_end,
    trimmed_start, views,
};

verus! {

/// First line of the tool-managed section of a user's sieve script.
pub const BEGIN_MARKER: &'static str = "# BEGIN mail-util (managed — edits here are overwritten)";

/// Last line of the tool-managed section of a user's sieve script.
pub const END_MARKER: &'static str = "# END mail-util";

// ---- rules ----

/// The rule for a cluster.
pub open spec fn cluster_rule(cluster: ClusterView, target: Seq<char>) -> SieveRuleView {
    SieveRuleView {
        test: match cluster.signal {
            Signal::ListId => SieveTestView::HeaderContains {
                header: "List-Id"@,
                value: cluster.key,
            },
            Signal::SenderDomain => SieveTestView::AddressDomain {
                header: "From"@,
                domain: cluster.key,
            },
            Signal::PersonAddress => SieveTestView::AddressIs {
                header: "From"@,
                address: cluster.key,
            },
        },
        fileinto: target,
        stop: true,
        comment: Some(cluster.key + " ("@ + decimal(cluster.count) + " messages)"@),
    }
}

/// Build a sieve rule for a cluster, filing matching mail into `sieve_target`.
pub fn rule_for_cluster(cluster: &Cluster, sieve_target: &str) -> (r: SieveRule)
    ensures
        r@ == cluster_rule(cluster@, sieve_target@),
{
    let test = match cluster.signal {
        Signal::ListId => SieveTest::HeaderContains {
            header: "List-Id".to_string(),
            value: cluster.key.clone(),
        },
        Signal::SenderDomain => SieveTest::AddressDomain {
            header: "From".to_string(),
            domain: cluster.key.clone(),
        },
        Signal::PersonAddress => SieveTest::AddressIs {
            header: "From".to_string(),
            address: cluster.key.clone(),
        },
    };
    let mut comment = cluster.key.clone();
    comment.push_str(" (");
    push_decimal(&mut comment, cluster.count as u64);
    comment.push_str(" messages)");
    SieveRule { test, fileinto: sieve_target.to_string(), stop: true, comment: Some(comment) }
}

/// A text with a backslash before each double quote and backslash.
pub open spec fn escaped(s: Seq<char>) -> Seq<char>
    decreases s.len(),
{
    if s.len() == 0 {
        Seq::empty()
    } else {
        let some = escaped(s.drop_last());
        if s.last() == '"' || s.last() == '\\' {
            some.push('\\').push(s.last())
        } else {
            some.push(s.last())
        }
    }
}

/// A text as a double-quoted string.
pub open spec fn quoted(s: Seq<char>) -> Seq<char> {
    seq!['"'] + escaped(s) + seq!['"']
}

/// Escape a string for inclusion in a double-quoted string: backslash and double-quote
/// are the only characters needing escaping.
pub fn quote(s: &str) -> (r: String)
    ensures
        r@ == quoted(s@),
{
    let chars = to_chars(s);
    let mut out = String::new();
    out.push('"');
    assert(s@.take(0) =~= Seq::empty());
    assert(out@ =~= seq!['"'] + escaped(s@.take(0)));
    for i in 0..chars.len()
        invariant
            chars@ == s@,
            out@ == seq!['"'] + escaped(s@.take(i as int)),
    {
        let c: char = chars[i];
        assert(s@.take(i + 1).drop_last() =~= s@.take(i as int));
        if c == '"' || c == '\\' {
            out.push('\\');
        }
        out.push(c);
        assert(out@ =~= seq!['"'] + escaped(s@.take(i + 1)));
    }
    assert(s@.take(s@.len() as int) =~= s@);
    out.push('"');
    assert(out@ =~= quoted(s@));
    out
}

/// The Sieve expression of a test.
pub open spec fn test_text(test: SieveTestView) -> Seq<char> {
    match test {
        SieveTestView::HeaderContains { header, value } => {
            "header :contains "@ + quoted(header) + " "@ + quoted(value)
        },
        SieveTestView::AddressDomain { header, domain } => {
            "address :domain :is "@ + quoted(header) + " "@ + quoted(domain)
        },
        SieveTestView::AddressIs { header, address } => {
            "address :all :is "@ + quoted(header) + " "@ + quoted(address)
        },
    }
}

/// Render a single test to its Sieve expression.
pub fn render_test(test: &SieveTest) -> (r: String)
    ensures
        r@ == test_text(test@),
{
    let (kind, header, value) = match test {
        SieveTest::HeaderContains { header, value } => ("header :contains ", header, value),
        SieveTest::AddressDomain { header, domain } => ("address :domain :is ", header, domain),
        SieveTest::AddressIs { header, address } => ("address :all :is ", header, address),
    };
    let mut r = kind.to_string();
    r.push_str(&quote(header));
    r.push_str(" ");
    r.push_str(&quote(value));
    r
}

/// The `if` block of a rule.
pub open spec fn rule_text(rule: SieveRuleView) -> Seq<char> {
    let comment = match rule.comment {
        Some(c) => "# "@ + c + "\n"@,
        None => Seq::empty(),
    };
    let stop = if rule.stop {
        "    stop;\n"@
    } else {
        Seq::empty()
    };
    comment + "if "@ + test_text(rule.test) + " {\n"@ + "    fileinto "@ + quoted(rule.fileinto)
        + ";\n"@ + stop + "}"@
}

/// Render one rule as an `if` block.
pub fn render_rule(rule: &SieveRule) -> (r: String)
    ensures
        r@ == rule_text(rule@),
{
    let mut s = String::new();
    if let Some(c) = &rule.comment {
        s.push_str("# ");
        s.push_str(c);
        s.push_str("\n");
    }
    s.push_str("if ");
    s.push_str(&render_test(&rule.test));
    s.push_str(" {\n");
    s.push_str("    fileinto ");
    s.push_str(&quote(&rule.fileinto));
    s.push_str(";\n");
    if rule.stop {
        s.push_str("    stop;\n");
    }
    s.push_str("}");
    assert(s@ =~= rule_text(rule@));
    s
}

/// The Sieve extensions required by a set of rules. `fileinto` is always needed; the
/// `header`/`address` tests are part of the base language and need no `require`.
pub fn required_extensions(_rules: &[SieveRule]) -> (r: Vec<&'static str>)
    ensures
        r@.len() == 1,
        r@[0]@ == "fileinto"@,
{
    vec!["fileinto"]
}

/// The texts of some rules, each on its own lines, with a blank line between two of them.
pub open spec fn rules_text(rules: Seq<SieveRuleView>) -> Seq<char>
    decreases rules.len(),
{
    if rules.len() == 0 {
        Seq::empty()
    } else {
        let some = rules_text(rules.drop_last());
        let gap = if rules.len() > 1 {
            "\n"@
        } else {
            Seq::empty()
        };
        some + gap + rule_text(rules.last()) + "\n"@
    }
}

/// The tool-managed block for some rules.
pub open spec fn block_text(rules: Seq<SieveRuleView>) -> Seq<char> {
    BEGIN_MARKER@ + "\n"@ + rules_text(rules) + END_MARKER@
}

/// Render the tool-managed block (just the rules, wrapped in markers) for `rules`.
pub fn render_managed_block(rules: &[SieveRule]) -> (r: String)
    ensures
        r@ == block_text(all_views(rules@)),
{
    let ghost all = all_views(rules@);
    let mut s = String::new();
    s.push_str(BEGIN_MARKER);
    s.push_str("\n");
    assert(s@ =~= BEGIN_MARKER@ + "\n"@ + rules_text(all.take(0)));
    for i in 0..rules.len()
        invariant
            all == all_views(rules@),
            s@ == BEGIN_MARKER@ + "\n"@ + rules_text(all.take(i as int)),
    {
        assert(all.take(i + 1).drop_last() =~= all.take(i as int));
        assert(all.take(i + 1).last() == rules@[i as int]@);
        if i > 0 {
            s.push_str("\n");
        }
        s.push_str(&render_rule(&rules[i]));
        s.push_str("\n");
        assert(s@ =~= BEGIN_MARKER@ + "\n"@ + rules_text(all.take(i + 1)));
    }
    assert(all.take(rules@.len() as int) =~= all);
    s.push_str(END_MARKER);
    s
}

/// The extensions named in a `require`.
pub open spec fn require_line() -> Seq<char> {
    "require ["@ + quoted("fileinto"@) + "];"@
}

/// A complete standalone script for some rules.
pub open spec fn script_text(rules: Seq<SieveRuleView>) -> Seq<char> {
    require_line() + "\n\n"@ + block_text(rules) + "\n"@
}

/// Render a complete standalone script: a `require`, then the managed block.
pub fn render_script(rules: &[SieveRule]) -> (r: String)
    ensures
        r@ == script_text(all_views(rules@)),
{
    let exts = required_extensions(rules);
    let mut names: Vec<Vec<char>> = Vec::new();
    names.push(to_chars(&quote(exts[0])));
    let comma = to_chars(", ");
    proof {
        assert(views(names@) =~= seq![quoted("fileinto"@)]);
        assert(join(seq![quoted("fileinto"@)], comma@) == quoted("fileinto"@));
    }
    let mut s = "require [".to_string();
    s.push_str(&from_chars(&joined(&names, &comma)));
    s.push_str("];");
    s.push_str("\n\n");
    s.push_str(&render_managed_block(rules));
    s.push_str("\n");
    s
}

// ---- merging ----

/// A line that declares the `fileinto` extension.
pub open spec fn declaring(line: Seq<char>) -> bool {
    starts_with(trim_start(line), "require"@) && has_text(line, "fileinto"@)
}

/// The script declares the `fileinto` extension in some `require`.
pub open spec fn declares(script: Seq<char>) -> bool {
    exists|i: int| 0 <= i < lines(script).len() && declaring(#[trigger] lines(script)[i])
}

/// True if the script already declares the `fileinto` extension in some `require`.
fn declares_fileinto(script: &[char]) -> (r: bool)
    ensures
        r == declares(script@),
{
    let ls = split_lines(script);
    let require = to_chars("require");
    let fileinto = to_chars("fileinto");
    for i in 0..ls.len()
        invariant
            views(ls@) == lines(script@),
            require@ == "require"@,
            fileinto@ == "fileinto"@,
            forall|j: int| 0 <= j < i ==> !declaring(#[trigger] lines(script@)[j]),
    {
        assert(lines(script@)[i as int] == ls@[i as int]@);
        if begins_with(trimmed_start(&ls[i]), &require) && contains_text(&ls[i], &fileinto) {
            return true;
        }
    }
    false
}

/// `existing` with its managed block replaced by `block`, or with `block` appended where
/// there is none. The managed block goes from the first begin marker to the first end
/// marker, which must come later.
pub open spec fn placed_block(existing: Seq<char>, block: Seq<char>) -> Seq<char> {
    match (find(existing, BEGIN_MARKER@), find(existing, END_MARKER@)) {
        (Some(b), Some(e)) => if e > b {
            existing.take(b) + block + existing.skip(e + END_MARKER@.len())
        } else {
            appended(existing, block)
        },
        _ => appended(existing, block),
    }
}

/// `block` after `existing`, trailing whitespace dropped, with a blank line between them.
pub open spec fn appended(existing: Seq<char>, block: Seq<char>) -> Seq<char> {
    let head = trim_end(existing);
    let gap = if head.len() > 0 {
        "\n\n"@
    } else {
        Seq::empty()
    };
    head + gap + block + "\n"@
}

/// The `require` that is put at the top.
pub open spec fn require_text() -> Seq<char> {
    "require [\"fileinto\"];\n\n"@
}

/// The script with a `require` for `fileinto`.
pub open spec fn with_require(script: Seq<char>) -> Seq<char> {
    if declares(script) {
        script
    } else {
        require_text() + trim_start(script)
    }
}

/// The result of merging rules into a script.
pub open spec fn merged(existing: Seq<char>, rules: Seq<SieveRuleView>) -> Seq<char> {
    with_require(placed_block(existing, block_text(rules)))
}

/// Merge generated `rules` into `existing`, replacing any prior tool-managed block and
/// preserving all hand-written content. Ensures a `require ["fileinto"];` is present.
pub fn merge(existing: &str, rules: &[SieveRule]) -> (r: String)
    ensures
        r@ == merged(existing@, all_views(rules@)),
{
    let block = to_chars(&render_managed_block(rules));
    let old_script = to_chars(existing);
    let n: usize = old_script.len();
    let begin = to_chars(BEGIN_MARKER);
    let end = to_chars(END_MARKER);
    let mut script: Vec<char> = Vec::new();
    let mut replaced = false;
    if let (Some(b), Some(e)) = (find_first(&old_script, &begin), find_first(&old_script, &end)) {
        if e > b {
            replaced = true;
            let head = slice(&old_script, 0, b);
            let tail = slice(&old_script, e + end.len(), n);
            append_chars(&mut script, head);
            append_chars(&mut script, &block);
            append_chars(&mut script, tail);
            proof {
                assert(head@ =~= existing@.take(b as int));
                assert(tail@ =~= existing@.skip(e + END_MARKER@.len()));
                assert(script@ =~= placed_block(existing@, block@));
            }
        }
    }
    if !replaced {
        let gap = to_chars("\n\n");
        let newline = to_chars("\n");
        let head = trimmed_end(&old_script);
        append_chars(&mut script, head);
        if head.len() > 0 {
            append_chars(&mut script, &gap);
        }
        append_chars(&mut script, &block);
        append_chars(&mut script, &newline);
        assert(script@ =~= appended(existing@, block@));
    }
    assert(script@ == placed_block(existing@, block@));
    if declares_fileinto(&script) {
        from_chars(&script)
    } else {
        let mut r = "require [\"fileinto\"];\n\n".to_string();
        r.push_str(&from_chars(trimmed_start(&script)));
        r
    }
}

} // verus!
