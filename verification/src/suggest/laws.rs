//! What holds of all suggestions: they are determined by their inputs, no message counts
//! twice, an existing folder is reused whenever one fits, and slugs are plain and keep the
//! words they are made of.

use vstd::prelude::*;

use crate::model::{ClusterView, ConfigView, DestinationView, MessageView, Signal};
use crate::namemap::{
    dotpath_with, dotted, imap_name, law_names_round_trip, local_name, plain,
};
use crate::seqs::lemma_same_list;
use crate::suggest::slug::{hyphenated, owner_label, slug_of};
use crate::suggest::{
    class_of, cluster_class, cluster_for, display_name, first_leaf, first_of, has_folder, is_work,
    leaf_of, lemma_suggested, members, samples, sender, slug_for, suggested_before, suggests,
    surfaces, ExistingView,
};
use crate::text::{
    after_last, before_first, drop_end_while, drop_while, is_alnum, is_ascii_lower, is_digit, join,
    lemma_rfind, lemma_split_by_len, lower, nonempty, occurs_at, rfind, split_by, trim_start_set,
};

verus! {

// ---- determinism ----

/// Suggestions have only items that other suggestions for the same inputs have.
proof fn lemma_same_items<F: Fn(usize, Signal, bool) -> u64>(
    a: Seq<ClusterView>,
    b: Seq<ClusterView>,
    messages: Seq<MessageView>,
    existing: Seq<ExistingView>,
    config: ConfigView,
    score: F,
    x: ClusterView,
)
    requires
        suggests(a, messages, existing, config, score),
        suggests(b, messages, existing, config, score),
        a.contains(x),
    ensures
        b.contains(x),
{
    let i = a.index_of(x);
    assert(a[i] == x);
    assert(surfaces(cluster_class(x), messages, existing, config, score));
}

/// Same messages in, same clusters out: the suggestions are determined by the messages,
/// the existing folders, the configuration and the score function.
pub proof fn law_suggestions_determined<F: Fn(usize, Signal, bool) -> u64>(
    a: Seq<ClusterView>,
    b: Seq<ClusterView>,
    messages: Seq<MessageView>,
    existing: Seq<ExistingView>,
    config: ConfigView,
    score: F,
)
    requires
        suggests(a, messages, existing, config, score),
        suggests(b, messages, existing, config, score),
    ensures
        a == b,
{
    assert forall|x: ClusterView| #[trigger] a.contains(x) == b.contains(x) by {
        if a.contains(x) {
            lemma_same_items(a, b, messages, existing, config, score, x);
        }
        if b.contains(x) {
            lemma_same_items(b, a, messages, existing, config, score, x);
        }
    }
    let less = |x: ClusterView, y: ClusterView| suggested_before(x, y);
    assert forall|x: ClusterView, y: ClusterView| #[trigger] less(x, y) implies !less(y, x) by {
        lemma_suggested(x, y, x);
    }
    lemma_same_list(a, b, less);
}

// ---- no message counts twice ----

/// How many messages the clusters hold together.
pub open spec fn total_count(clusters: Seq<ClusterView>) -> nat
    decreases clusters.len(),
{
    if clusters.len() == 0 {
        0
    } else {
        total_count(clusters.drop_last()) + clusters.last().count
    }
}

/// How many messages have one of the classes, each class counted by itself.
pub open spec fn held(messages: Seq<MessageView>, classes: Seq<(Signal, Seq<char>)>) -> nat
    decreases classes.len(),
{
    if classes.len() == 0 {
        0
    } else {
        held(messages, classes.drop_last()) + members(messages, classes.last()).len()
    }
}

/// One message more is held once if its class is among the classes, and else not.
pub proof fn lemma_held_step(messages: Seq<MessageView>, classes: Seq<(Signal, Seq<char>)>)
    requires
        messages.len() > 0,
        classes.no_duplicates(),
    ensures
        held(messages, classes) == held(messages.drop_last(), classes) + (match class_of(
            messages.last(),
        ) {
            Some(c) => if classes.contains(c) {
                1nat
            } else {
                0nat
            },
            None => 0nat,
        }),
    decreases classes.len(),
{
    if classes.len() > 0 {
        let rest = classes.drop_last();
        assert(rest.no_duplicates());
        lemma_held_step(messages, rest);
        match class_of(messages.last()) {
            Some(c) => {
                if c == classes.last() {
                    assert(classes.contains(c)) by {
                        assert(classes[classes.len() - 1] == c);
                    }
                    if rest.contains(c) {
                        let k = rest.index_of(c);
                        assert(rest[k] == classes[k]);
                        assert(classes[k] != classes[classes.len() - 1]);
                    }
                } else {
                    if classes.contains(c) {
                        let k = classes.index_of(c);
                        assert(classes[k] == c);
                        assert(rest[k] == c);
                    }
                    if rest.contains(c) {
                        let k = rest.index_of(c);
                        assert(classes[k] == c);
                    }
                }
            },
            None => {},
        }
    }
}

/// Different classes hold no more messages than there are.
proof fn lemma_held_bound(messages: Seq<MessageView>, classes: Seq<(Signal, Seq<char>)>)
    requires
        classes.no_duplicates(),
    ensures
        held(messages, classes) <= messages.len(),
    decreases messages.len(),
{
    if messages.len() > 0 {
        lemma_held_bound(messages.drop_last(), classes);
        lemma_held_step(messages, classes);
    } else {
        lemma_held_none(messages, classes);
    }
}

/// Where there are no messages, none is held.
pub proof fn lemma_held_none(messages: Seq<MessageView>, classes: Seq<(Signal, Seq<char>)>)
    requires
        messages.len() == 0,
    ensures
        held(messages, classes) == 0,
    decreases classes.len(),
{
    if classes.len() > 0 {
        lemma_held_none(messages, classes.drop_last());
    }
}

/// The classes of clusters.
pub open spec fn classes_of(clusters: Seq<ClusterView>) -> Seq<(Signal, Seq<char>)> {
    Seq::new(clusters.len(), |i: int| cluster_class(clusters[i]))
}

/// The counts of clusters that count their members add up to what their classes hold.
pub proof fn lemma_total(clusters: Seq<ClusterView>, messages: Seq<MessageView>)
    requires
        forall|i: int|
            0 <= i < clusters.len() ==> (#[trigger] clusters[i]).count == members(
                messages,
                cluster_class(clusters[i]),
            ).len(),
    ensures
        total_count(clusters) == held(messages, classes_of(clusters)),
    decreases clusters.len(),
{
    if clusters.len() > 0 {
        let rest = clusters.drop_last();
        assert forall|i: int| 0 <= i < rest.len() implies (#[trigger] rest[i]).count == members(
            messages,
            cluster_class(rest[i]),
        ).len() by {
            assert(rest[i] == clusters[i]);
        }
        lemma_total(rest, messages);
        assert(classes_of(clusters).drop_last() =~= classes_of(rest));
    }
}

/// No message counts twice: no class of messages has two clusters, each cluster counts
/// the messages of its class, and the clusters together count no more messages than there
/// are.
pub proof fn law_no_message_counts_twice<F: Fn(usize, Signal, bool) -> u64>(
    r: Seq<ClusterView>,
    messages: Seq<MessageView>,
    existing: Seq<ExistingView>,
    config: ConfigView,
    score: F,
)
    requires
        suggests(r, messages, existing, config, score),
    ensures
        forall|i: int, j: int|
            0 <= i < j < r.len() ==> cluster_class(#[trigger] r[i]) != cluster_class(
                #[trigger] r[j],
            ),
        forall|i: int|
            0 <= i < r.len() ==> (#[trigger] r[i]).count == members(
                messages,
                cluster_class(r[i]),
            ).len(),
        total_count(r) <= messages.len(),
{
    assert forall|i: int, j: int| 0 <= i < j < r.len() implies cluster_class(#[trigger] r[i])
        != cluster_class(#[trigger] r[j]) by {
        lemma_suggested(r[i], r[j], r[i]);
        if cluster_class(r[i]) == cluster_class(r[j]) {
            assert(r[i] == r[j]);
        }
    }
    assert forall|i: int| 0 <= i < r.len() implies (#[trigger] r[i]).count == members(
        messages,
        cluster_class(r[i]),
    ).len() by {
        let class = cluster_class(r[i]);
        assert(r[i] == cluster_for(class, messages, existing, config, score));
    }
    let classes = classes_of(r);
    assert(classes.no_duplicates()) by {
        assert forall|i: int, j: int|
            0 <= i < classes.len() && 0 <= j < classes.len() && i != j implies classes[i]
            != classes[j] by {
            if i < j {
                assert(cluster_class(r[i]) != cluster_class(r[j]));
            } else {
                assert(cluster_class(r[j]) != cluster_class(r[i]));
            }
        }
    }
    lemma_total(r, messages);
    lemma_held_bound(messages, classes);
}

// ---- reuse ----

/// `first_leaf` is the least position with the leaf.
proof fn lemma_first_leaf(existing: Seq<ExistingView>, leaf: Seq<char>)
    ensures
        0 <= first_leaf(existing, leaf) <= existing.len(),
        first_leaf(existing, leaf) < existing.len() ==> existing[first_leaf(existing, leaf)].leaf
            == leaf,
        forall|i: int|
            0 <= i < first_leaf(existing, leaf) ==> (#[trigger] existing[i]).leaf != leaf,
    decreases existing.len(),
{
    if existing.len() > 0 && existing[0].leaf != leaf {
        let rest = existing.skip(1);
        lemma_first_leaf(rest, leaf);
        assert forall|i: int| 0 <= i < first_leaf(existing, leaf) implies (
        #[trigger] existing[i]).leaf != leaf by {
            if i > 0 {
                assert(existing[i] == rest[i - 1]);
            }
        }
    }
}

/// The leaf of a folder is the slug.
pub open spec fn has_leaf(existing: Seq<ExistingView>, slug: Seq<char>) -> bool {
    exists|i: int| 0 <= i < existing.len() && (#[trigger] existing[i]).leaf == slug
}

/// The existing taxonomy is reused: a cluster whose slug is the leaf of an existing folder
/// goes into the first such folder. Any other cluster gets a new folder, but for the mail
/// of a work domain, which goes into `.work` if that exists.
pub proof fn law_existing_folders_reused<F: Fn(usize, Signal, bool) -> u64>(
    r: Seq<ClusterView>,
    messages: Seq<MessageView>,
    existing: Seq<ExistingView>,
    config: ConfigView,
    score: F,
    i: int,
)
    requires
        suggests(r, messages, existing, config, score),
        0 <= i < r.len(),
    ensures
        ({
            let class = cluster_class(r[i]);
            let slug = slug_for(class, members(messages, class));
            match r[i].destination {
                DestinationView::Existing { dotpath } => if has_leaf(existing, slug) {
                    exists|p: int|
                        0 <= p < existing.len() && (#[trigger] existing[p]).leaf == slug
                            && existing[p].dotpath == dotpath && forall|q: int|
                            0 <= q < p ==> (#[trigger] existing[q]).leaf != slug
                } else {
                    is_work(class, config) && dotpath == ".work"@ && has_folder(
                        existing,
                        ".work"@,
                    )
                },
                DestinationView::New { dotpath } => !has_leaf(existing, slug) && !(is_work(
                    class,
                    config,
                ) && has_folder(existing, ".work"@)),
            }
        }),
{
    let class = cluster_class(r[i]);
    let slug = slug_for(class, members(messages, class));
    assert(r[i] == cluster_for(class, messages, existing, config, score));
    lemma_first_leaf(existing, slug);
    let p = first_leaf(existing, slug);
    if p < existing.len() {
        assert(existing[p].leaf == slug);
    }
}

// ---- slugs ----

/// A character of a slug: a lowercase letter, a digit or a hyphen.
pub open spec fn is_slug_char(c: char) -> bool {
    is_ascii_lower(c) || is_digit(c) || c == '-'
}

/// A text of slug characters in which no two hyphens stand side by side.
pub open spec fn spaced(s: Seq<char>) -> bool {
    &&& forall|i: int| 0 <= i < s.len() ==> is_slug_char(#[trigger] s[i])
    &&& forall|i: int| 0 < i < s.len() && (#[trigger] s[i]) == '-' ==> s[i - 1] != '-'
}

/// A slug: spaced, with no hyphen at either end.
pub open spec fn is_slug(s: Seq<char>) -> bool {
    spaced(s) && (s.len() > 0 ==> s[0] != '-' && s.last() != '-')
}

/// Hyphenated text is spaced.
proof fn lemma_hyphenated(s: Seq<char>)
    ensures
        spaced(hyphenated(s)),
    decreases s.len(),
{
    if s.len() > 0 {
        lemma_hyphenated(s.drop_last());
        let rest = hyphenated(s.drop_last());
        let h = hyphenated(s);
        let c = s.last();
        if is_alnum(c) {
            assert(is_slug_char(lower(c)) && lower(c) != '-');
        }
        assert forall|i: int| 0 <= i < h.len() implies is_slug_char(#[trigger] h[i]) by {
            if i < rest.len() {
                assert(h[i] == rest[i]);
            }
        }
        assert forall|i: int| 0 < i < h.len() && (#[trigger] h[i]) == '-' implies h[i - 1]
            != '-' by {
            if i < rest.len() {
                assert(h[i] == rest[i] && h[i - 1] == rest[i - 1]);
            }
        }
    }
}

/// Dropping a start keeps a text spaced, and leaves nothing that would be dropped at the
/// start.
proof fn lemma_drop_start(s: Seq<char>, p: spec_fn(char) -> bool)
    requires
        spaced(s),
    ensures
        spaced(drop_while(s, p)),
        drop_while(s, p).len() > 0 ==> !p(drop_while(s, p)[0]),
    decreases s.len(),
{
    if s.len() > 0 && p(s[0]) {
        let rest = s.skip(1);
        assert forall|i: int| 0 <= i < rest.len() implies is_slug_char(#[trigger] rest[i]) by {
            assert(rest[i] == s[i + 1]);
        }
        assert forall|i: int| 0 < i < rest.len() && (#[trigger] rest[i]) == '-' implies rest[i
            - 1] != '-' by {
            assert(rest[i] == s[i + 1]);
        }
        lemma_drop_start(rest, p);
    }
}

/// Dropping an end keeps a text spaced and its first character, and leaves nothing that
/// would be dropped at the end.
proof fn lemma_drop_end(s: Seq<char>, p: spec_fn(char) -> bool)
    requires
        spaced(s),
    ensures
        spaced(drop_end_while(s, p)),
        drop_end_while(s, p).len() > 0 ==> !p(drop_end_while(s, p).last()) && s.len() > 0
            && drop_end_while(s, p)[0] == s[0],
    decreases s.len(),
{
    if s.len() > 0 && p(s.last()) {
        lemma_drop_end(s.drop_last(), p);
    }
}

/// Slugs are plain: whatever the text, its slug holds only lowercase letters, digits and
/// single hyphens, with none at either end. So a slug holds no dot and no slash, and is
/// one component of a folder's name.
pub proof fn law_slugs_are_plain(s: Seq<char>)
    ensures
        is_slug(slug_of(s)),
        !slug_of(s).contains('.'),
        !slug_of(s).contains('/'),
{
    let set = seq!['-'];
    let p = |c: char| set.contains(c);
    lemma_hyphenated(s);
    lemma_drop_start(hyphenated(s), p);
    let a = trim_start_set(hyphenated(s), set);
    assert(a == drop_while(hyphenated(s), p));
    lemma_drop_end(a, p);
    let b = slug_of(s);
    assert(b == drop_end_while(a, p));
    assert(set[0] == '-');
    if b.len() > 0 {
        assert(!set.contains(b[0]));
        assert(!set.contains(b.last()));
    }
    assert forall|i: int| 0 <= i < b.len() implies b[i] != '.' && b[i] != '/' by {
        assert(is_slug_char(b[i]));
    }
}

/// The slug for a class of messages is a slug.
proof fn lemma_slug_for(class: (Signal, Seq<char>), ms: Seq<MessageView>)
    ensures
        is_slug(slug_for(class, ms)),
{
    let name = first_of(ms, display_name());
    let senders = samples(ms, sender());
    law_slugs_are_plain(before_first(class.1, '.'));
    law_slugs_are_plain(owner_label(class.1));
    law_slugs_are_plain(owner_label(after_last(senders[0], '@')));
    law_slugs_are_plain(before_first(class.1, '@'));
    law_slugs_are_plain(before_first(Seq::empty(), '@'));
    if name is Some {
        law_slugs_are_plain(name->0);
    }
}

/// A text of slug characters can stand in a folder name, if it is not empty and the
/// separator is none of them.
proof fn lemma_plain(s: Seq<char>, sep: char)
    requires
        s.len() > 0,
        forall|i: int| 0 <= i < s.len() ==> is_slug_char(#[trigger] s[i]),
        !is_slug_char(sep),
    ensures
        plain(s, sep),
{
    if s.contains('/') {
        let i = s.index_of('/');
        assert(is_slug_char(s[i]));
    }
    if s.contains(sep) {
        let i = s.index_of(sep);
        assert(is_slug_char(s[i]));
    }
}

/// The dotpath of a parent and a slug is made of the two.
proof fn lemma_two_parts(name: Seq<char>, slug: Seq<char>)
    ensures
        dotpath_with(seq![name, slug]) == seq!['.'] + name + seq!['/', '.'] + slug,
{
    let parts = seq![dotted(name), dotted(slug)];
    assert(Seq::new(2, |i: int| dotted(seq![name, slug][i])) =~= parts);
    assert(parts.drop_last() =~= seq![dotted(name)]);
    assert(seq![dotted(name)].drop_last() =~= Seq::empty());
    reveal_with_fuel(join, 3);
    assert(dotpath_with(seq![name, slug]) =~= seq!['.'] + name + seq!['/', '.'] + slug);
}

/// The names of suggested new folders round-trip: where a cluster gets a new folder and
/// its slug is not empty, the IMAP name of the folder leads back to its dotpath, for every
/// separator that is no slug character.
pub proof fn law_new_folder_names<F: Fn(usize, Signal, bool) -> u64>(
    r: Seq<ClusterView>,
    messages: Seq<MessageView>,
    existing: Seq<ExistingView>,
    config: ConfigView,
    score: F,
    i: int,
    sep: char,
)
    requires
        suggests(r, messages, existing, config, score),
        0 <= i < r.len(),
        r[i].destination is New,
        slug_for(cluster_class(r[i]), members(messages, cluster_class(r[i]))).len() > 0,
        !is_slug_char(sep),
    ensures
        ({
            let dotpath = r[i].destination.path();
            local_name(imap_name(dotpath, sep), sep) == dotpath
        }),
{
    let class = cluster_class(r[i]);
    let ms = members(messages, class);
    let slug = slug_for(class, ms);
    let dotpath = r[i].destination.path();
    assert(r[i] == cluster_for(class, messages, existing, config, score));
    lemma_slug_for(class, ms);
    lemma_plain(slug, sep);
    reveal_strlit(".work");
    reveal_strlit(".lists");
    reveal_strlit(".people");
    reveal_strlit(".vendors");
    reveal_strlit("/.");
    if is_work(class, config) {
        let name = seq!['w', 'o', 'r', 'k'];
        lemma_plain(name, sep);
        let parts = seq![name];
        reveal_with_fuel(join, 2);
        assert(Seq::new(1, |k: int| dotted(parts[k])) =~= seq![dotted(name)]);
        assert(seq![dotted(name)].drop_last() =~= Seq::empty());
        assert(dotpath_with(parts) =~= ".work"@);
        law_names_round_trip(parts, sep);
    } else {
        let name = match class.0 {
            Signal::ListId => seq!['l', 'i', 's', 't', 's'],
            Signal::PersonAddress => seq!['p', 'e', 'o', 'p', 'l', 'e'],
            Signal::SenderDomain => seq!['v', 'e', 'n', 'd', 'o', 'r', 's'],
        };
        lemma_plain(name, sep);
        lemma_two_parts(name, slug);
        assert(dotpath =~= seq!['.'] + name + seq!['/', '.'] + slug);
        law_names_round_trip(seq![name, slug], sep);
    }
}

/// The leaf of a folder below a parent is its own name, where that holds no dot or slash.
proof fn lemma_leaf(parent: Seq<char>, slug: Seq<char>)
    requires
        is_slug(slug),
    ensures
        leaf_of(parent + seq!['/', '.'] + slug) == slug,
{
    let path = parent + seq!['/', '.'] + slug;
    let n = parent.len() as int;
    let sep = seq!['/'];
    assert(path.subrange(n, n + 1) =~= sep);
    assert(occurs_at(path, sep, n));
    assert forall|k: int| n < k implies !occurs_at(path, sep, k) by {
        if occurs_at(path, sep, k) {
            assert(path.subrange(k, k + 1)[0] == '/');
            if k > n + 1 {
                assert(is_slug_char(slug[k - n - 2]));
            }
        }
    }
    lemma_rfind(path, sep);
    assert(rfind(path, sep) == Some(n));
    let last = after_last(path, '/');
    assert(last =~= seq!['.'] + slug);
    let set = seq!['.'];
    let p = |c: char| set.contains(c);
    assert(set[0] == '.');
    assert(last.skip(1) =~= slug);
    assert(trim_start_set(last, set) == drop_while(last, p));
    assert(drop_while(last, p) == drop_while(slug, p));
    if slug.len() > 0 {
        assert(is_slug_char(slug[0]));
        assert(!set.contains(slug[0]));
    }
}

/// New folders are new: where the leaf of every existing folder is the one in its dotpath,
/// no cluster is to get a new folder where there already is one.
pub proof fn law_new_folders_are_new<F: Fn(usize, Signal, bool) -> u64>(
    r: Seq<ClusterView>,
    messages: Seq<MessageView>,
    existing: Seq<ExistingView>,
    config: ConfigView,
    score: F,
    i: int,
)
    requires
        suggests(r, messages, existing, config, score),
        0 <= i < r.len(),
        forall|q: int|
            0 <= q < existing.len() ==> (#[trigger] existing[q]).leaf == leaf_of(
                existing[q].dotpath,
            ),
    ensures
        r[i].destination is New ==> !has_folder(existing, r[i].destination.path()),
{
    let class = cluster_class(r[i]);
    let ms = members(messages, class);
    let slug = slug_for(class, ms);
    let dotpath = r[i].destination.path();
    assert(r[i] == cluster_for(class, messages, existing, config, score));
    law_existing_folders_reused(r, messages, existing, config, score, i);
    if r[i].destination is New && !is_work(class, config) {
        let parent = match class.0 {
            Signal::ListId => ".lists"@,
            Signal::PersonAddress => ".people"@,
            Signal::SenderDomain => ".vendors"@,
        };
        reveal_strlit("/.");
        assert("/."@ =~= seq!['/', '.']);
        lemma_slug_for(class, ms);
        lemma_leaf(parent, slug);
    }
}

/// Hyphenating spaced text changes nothing.
proof fn lemma_hyphenated_again(s: Seq<char>)
    requires
        spaced(s),
    ensures
        hyphenated(s) == s,
    decreases s.len(),
{
    if s.len() > 0 {
        let n = s.len() - 1;
        let rest = s.drop_last();
        assert forall|i: int| 0 <= i < rest.len() implies is_slug_char(#[trigger] rest[i]) by {
            assert(rest[i] == s[i]);
        }
        assert forall|i: int| 0 < i < rest.len() && (#[trigger] rest[i]) == '-' implies rest[i
            - 1] != '-' by {
            assert(rest[i] == s[i]);
        }
        lemma_hyphenated_again(rest);
        assert(is_slug_char(s[n]));
        assert(rest.push(s[n]) =~= s);
    }
}

/// Slugs are stable: the slug of a slug is that slug.
pub proof fn law_slugs_are_stable(s: Seq<char>)
    ensures
        slug_of(slug_of(s)) == slug_of(s),
{
    law_slugs_are_plain(s);
    let b = slug_of(s);
    lemma_hyphenated_again(b);
    if b.len() > 0 {
        let set = seq!['-'];
        assert(!set.contains(b[0]));
        assert(!set.contains(b.last()));
        assert(trim_start_set(b, set) == b);
    }
}

// ---- what a slug keeps ----

/// The maximal runs of ASCII letters and digits in a text.
pub open spec fn runs(s: Seq<char>) -> Seq<Seq<char>> {
    nonempty(split_by(s, |c: char| !is_alnum(c)))
}

/// The texts in lowercase.
pub open spec fn all_lower(parts: Seq<Seq<char>>) -> Seq<Seq<char>> {
    parts.map_values(|x: Seq<char>| x.map_values(|c: char| lower(c)))
}

/// Dropping the start of two texts in a row.
proof fn lemma_drop_concat(a: Seq<char>, b: Seq<char>, p: spec_fn(char) -> bool)
    ensures
        drop_while(a + b, p) == if drop_while(a, p).len() > 0 {
            drop_while(a, p) + b
        } else {
            drop_while(b, p)
        },
    decreases a.len(),
{
    if a.len() > 0 {
        if p(a[0]) {
            lemma_drop_concat(a.skip(1), b, p);
            assert((a + b).skip(1) =~= a.skip(1) + b);
        }
    } else {
        assert(a + b =~= b);
    }
}

/// One more character: the runs.
proof fn lemma_runs_push(s: Seq<char>, c: char)
    ensures
        ({
            let q = |x: char| !is_alnum(x);
            let pieces = split_by(s, q);
            let before = runs(s);
            let after = runs(s.push(c));
            &&& pieces.len() > 0
            &&& pieces.last().len() > 0 ==> before.len() > 0 && before.last() == pieces.last()
            &&& pieces.last().len() == 0 <==> s.len() == 0 || !is_alnum(s.last())
            &&& after == if !is_alnum(c) {
                before
            } else if pieces.last().len() > 0 {
                before.drop_last().push(before.last().push(c))
            } else {
                before.push(seq![c])
            }
        }),
{
    reveal(Seq::filter);
    let q = |x: char| !is_alnum(x);
    let full = |x: Seq<char>| x.len() > 0;
    lemma_split_by_len(s, q);
    let pieces = split_by(s, q);
    let now = split_by(s.push(c), q);
    let rest = pieces.drop_last();
    assert(s.push(c).drop_last() =~= s);
    if s.len() > 0 {
        lemma_split_by_len(s.drop_last(), q);
    }
    if is_alnum(c) {
        let longer = pieces.last().push(c);
        assert(now == rest.push(longer));
        assert(now.drop_last() =~= rest);
        assert(now.filter(full) == rest.filter(full).push(longer));
        if pieces.last().len() > 0 {
            assert(pieces.filter(full) == rest.filter(full).push(pieces.last()));
            assert(pieces.filter(full).drop_last() =~= rest.filter(full));
        } else {
            assert(longer =~= seq![c]);
        }
    } else {
        assert(now.drop_last() =~= pieces);
    }
}

/// What hyphenating and dropping leading hyphens leaves: the runs in lowercase with
/// hyphens between them, and one more where the text goes on behind the last run.
proof fn lemma_hyphenated_runs(s: Seq<char>)
    ensures
        ({
            let set = seq!['-'];
            let joined = join(all_lower(runs(s)), set);
            trim_start_set(hyphenated(s), set) == if runs(s).len() > 0 && !is_alnum(s.last()) {
                joined + set
            } else {
                joined
            }
        }),
        forall|i: int| 0 <= i < runs(s).len() ==> (#[trigger] runs(s)[i]).len() > 0,
        runs(s).len() > 0 ==> s.len() > 0,
        forall|i: int, j: int|
            0 <= i < runs(s).len() && 0 <= j < runs(s)[i].len() ==> is_alnum(
                #[trigger] runs(s)[i][j],
            ),
    decreases s.len(),
{
    let set = seq!['-'];
    let p = |c: char| set.contains(c);
    assert(set[0] == '-');
    if s.len() == 0 {
        reveal(Seq::filter);
        let full = |x: Seq<char>| x.len() > 0;
        let pieces = seq![Seq::<char>::empty()];
        let none = Seq::<Seq<char>>::empty();
        assert(pieces.drop_last() =~= none);
        assert(none.filter(full) == none);
        assert(pieces.filter(full) == none);
        assert(runs(s) =~= Seq::empty());
        assert(all_lower(runs(s)) =~= Seq::empty());
    } else {
        let rest = s.drop_last();
        let c = s.last();
        assert(rest.push(c) =~= s);
        lemma_hyphenated_runs(rest);
        lemma_runs_push(rest, c);
        let before = runs(rest);
        let after = runs(s);
        let h = hyphenated(rest);
        let t = trim_start_set(h, set);
        assert(t == drop_while(h, p));
        assert(trim_start_set(hyphenated(s), set) == drop_while(hyphenated(s), p));
        let low = all_lower(before);
        let now = all_lower(after);
        if is_alnum(c) {
            let one = seq![lower(c)];
            assert(lower(c) != '-');
            assert(!set.contains(one[0]));
            lemma_drop_concat(h, one, p);
            assert(hyphenated(s) =~= h + one);
            assert(drop_while(one, p) == one);
            if rest.len() > 0 && is_alnum(rest.last()) {
                let run = before.last();
                assert(before[before.len() - 1] == run);
                assert(after =~= before.drop_last().push(run.push(c)));
                let small = low.last();
                assert(small.len() == run.len());
                assert(now =~= low.drop_last().push(small.push(lower(c)))) by {
                    assert(now.last() =~= small.push(lower(c)));
                }
                assert(now.drop_last() =~= low.drop_last());
                assert(join(now, set) =~= join(low, set) + one) by {
                    if low.len() > 1 {
                        assert(join(now, set) == join(low.drop_last(), set) + set + small.push(
                            lower(c),
                        ));
                    }
                }
                lemma_join_len(low, set);
            } else {
                assert(after == before.push(seq![c]));
                assert(now =~= low.push(one)) by {
                    assert(now.last() =~= one);
                }
                assert(now.drop_last() =~= low);
                if before.len() > 0 {
                    assert(join(now, set) == join(low, set) + set + one);
                } else {
                    assert(join(now, set) =~= one);
                    assert(low =~= Seq::empty());
                    assert(t =~= Seq::empty());
                }
            }
            assert forall|i: int| 0 <= i < after.len() implies (
            #[trigger] after[i]).len() > 0 by {
                if i < before.len() - 1 {
                    assert(after[i] == before[i]);
                } else if i == before.len() - 1 {
                    assert(before[i].len() > 0);
                }
            }
            assert forall|i: int, j: int|
                0 <= i < after.len() && 0 <= j < after[i].len() implies is_alnum(
                #[trigger] after[i][j],
            ) by {
                if i < before.len() && j < before[i].len() {
                    assert(is_alnum(before[i][j]));
                    assert(after[i][j] == before[i][j]);
                }
            }
        } else {
            assert(after == before);
            if h.len() > 0 && h.last() == '-' {
                if before.len() > 0 && is_alnum(rest.last()) {
                    assert(h.last() == lower(rest.last()));
                }
            } else {
                lemma_drop_concat(h, set, p);
                assert(hyphenated(s) =~= h + set);
                assert(set.skip(1) =~= Seq::empty());
                assert(drop_while(set.skip(1), p) =~= Seq::empty());
                assert(p(set[0]));
                assert(drop_while(set, p) =~= Seq::empty());
                if before.len() > 0 {
                    lemma_join_len(low, set);
                    if !is_alnum(rest.last()) {
                        lemma_hyphen_last(rest);
                    }
                } else {
                    assert(low =~= Seq::empty());
                    assert(t =~= Seq::empty());
                }
            }
        }
    }
}

/// Hyphenated text ends with a hyphen where the text ends with something else than a
/// letter or a digit.
proof fn lemma_hyphen_last(s: Seq<char>)
    requires
        s.len() > 0,
        !is_alnum(s.last()),
    ensures
        hyphenated(s).len() > 0,
        hyphenated(s).last() == '-',
{
}

/// A join of texts that are not empty is not empty, and ends as the last of them.
proof fn lemma_join_len(parts: Seq<Seq<char>>, sep: Seq<char>)
    requires
        parts.len() > 0,
        parts.last().len() > 0,
    ensures
        join(parts, sep).len() > 0,
        join(parts, sep).last() == parts.last().last(),
{
}

/// A slug keeps the words: it is the runs of ASCII letters and digits of the text, in
/// order and in lowercase, with one hyphen between any two of them.
pub proof fn law_slug_keeps_words(s: Seq<char>)
    ensures
        slug_of(s) == join(all_lower(runs(s)), seq!['-']),
{
    let set = seq!['-'];
    let p = |c: char| set.contains(c);
    let parts = all_lower(runs(s));
    let joined = join(parts, set);
    lemma_hyphenated_runs(s);
    let t = trim_start_set(hyphenated(s), set);
    assert(slug_of(s) == drop_end_while(t, p));
    if runs(s).len() > 0 {
        let n = runs(s).len() - 1;
        let run = runs(s)[n];
        assert(run.len() > 0);
        assert(parts.last().len() == run.len());
        assert(is_alnum(runs(s)[n][run.len() - 1]));
        assert(parts.last().last() == lower(run[run.len() - 1]));
        lemma_join_len(parts, set);
        assert(joined.last() != '-');
        assert(!set.contains(joined.last()));
        assert(drop_end_while(joined, p) == joined);
        assert((joined + set).drop_last() =~= joined);
        assert(set.contains((joined + set).last())) by {
            assert(set[0] == '-');
        }
    } else {
        assert(parts =~= Seq::empty());
        assert(joined =~= Seq::empty());
    }
}

/// The letters and digits of a text, in order, in lowercase.
pub open spec fn letters(s: Seq<char>) -> Seq<char> {
    s.filter(|c: char| is_alnum(c)).map_values(|c: char| lower(c))
}

/// A slug keeps every letter and digit: without its hyphens it is the ASCII letters and
/// digits of the text, in order and in lowercase.
pub proof fn law_slug_keeps_letters(s: Seq<char>)
    ensures
        slug_of(s).filter(|c: char| c != '-') == letters(s),
{
    let keep = |c: char| c != '-';
    let set = seq!['-'];
    let p = |c: char| set.contains(c);
    lemma_hyphenated_letters(s);
    assert forall|c: char| #[trigger] p(c) implies !keep(c) by {}
    let a = drop_while(hyphenated(s), p);
    lemma_filter_dropped(hyphenated(s), p, keep);
    lemma_filter_dropped_end(a, p, keep);
    assert(slug_of(s) == drop_end_while(a, p));
}

proof fn lemma_hyphenated_letters(s: Seq<char>)
    ensures
        hyphenated(s).filter(|c: char| c != '-') == letters(s),
    decreases s.len(),
{
    reveal(Seq::filter);
    let keep = |c: char| c != '-';
    let alnum = |c: char| is_alnum(c);
    let low = |c: char| lower(c);
    if s.len() > 0 {
        let rest = s.drop_last();
        let c = s.last();
        lemma_hyphenated_letters(rest);
        let h = hyphenated(rest);
        assert(letters(rest) == rest.filter(alnum).map_values(low));
        assert(letters(s) == s.filter(alnum).map_values(low));
        if is_alnum(c) {
            assert(lower(c) != '-');
            assert(h.push(lower(c)).drop_last() =~= h);
            assert(letters(s) =~= letters(rest).push(lower(c)));
        } else {
            assert(h.push('-').drop_last() =~= h);
        }
    } else {
        assert(hyphenated(s).filter(keep) =~= letters(s));
    }
}

/// Dropping what a filter drops changes nothing for the filter.
proof fn lemma_filter_dropped(s: Seq<char>, p: spec_fn(char) -> bool, keep: spec_fn(char) -> bool)
    requires
        forall|c: char| #[trigger] p(c) ==> !keep(c),
    ensures
        drop_while(s, p).filter(keep) == s.filter(keep),
    decreases s.len(),
{
    if s.len() > 0 && p(s[0]) {
        reveal(Seq::filter);
        let one = seq![s[0]];
        let rest = s.skip(1);
        lemma_filter_dropped(rest, p, keep);
        Seq::filter_distributes_over_add(one, rest, keep);
        assert(one + rest =~= s);
        let none = Seq::<char>::empty();
        assert(one.drop_last() =~= none);
        assert(none.filter(keep) == none);
        assert(one.filter(keep) == none);
        assert(none + rest.filter(keep) =~= rest.filter(keep));
    }
}

proof fn lemma_filter_dropped_end(
    s: Seq<char>,
    p: spec_fn(char) -> bool,
    keep: spec_fn(char) -> bool,
)
    requires
        forall|c: char| #[trigger] p(c) ==> !keep(c),
    ensures
        drop_end_while(s, p).filter(keep) == s.filter(keep),
    decreases s.len(),
{
    if s.len() > 0 && p(s.last()) {
        reveal(Seq::filter);
        lemma_filter_dropped_end(s.drop_last(), p, keep);
    }
}

} // verus!
