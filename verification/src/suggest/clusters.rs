//! What suggestions are for: which messages make a cluster, what is said of it, where it
//! goes, and which cluster comes first.

use vstd::prelude::*;

use crate::model::{ClusterView, Confidence, ConfigView, DestinationView, MessageView, Signal};
use crate::order::before;
use crate::suggest::laws::{has_leaf, law_existing_folders_reused, total_count};
use crate::suggest::slug::laws::{
    has_alnum, is_public_provider, law_freemail, law_opaque, law_slug_exists,
};
use crate::suggest::slug::{domain_slug_of, list_slug_of, opaque, person_slug_of, slug_of};
use crate::suggest::{
    class_of, cluster_class, cluster_for, display_name, first_of, is_scoring, leaf_of, members,
    samples, score_key, sender, slug_for, subject, suggested_before, suggests, surfaces, uids_of,
    ExistingView,
};
use crate::text::laws::{law_cut, law_trim_set};

verus! {

// ---- the order of suggestions ----

/// Suggestions are ranked: the score never rises from one to the next; where it is the
/// same the count does not rise; where both are the same the keys ascend; and where the
/// keys are the same too, the stronger signal comes first.
pub proof fn law_suggestions_ranked<F: Fn(usize, Signal, bool) -> u64>(
    r: Seq<ClusterView>,
    messages: Seq<MessageView>,
    existing: Seq<ExistingView>,
    config: ConfigView,
    score: F,
    i: int,
    j: int,
)
    requires
        suggests(r, messages, existing, config, score),
        0 <= i < j < r.len(),
    ensures
        r[i].score >= r[j].score,
        r[i].score == r[j].score ==> r[i].count >= r[j].count,
        r[i].score == r[j].score && r[i].count == r[j].count ==> r[i].key == r[j].key || before(
            r[i].key,
            r[j].key,
        ),
        r[i].score == r[j].score && r[i].count == r[j].count && r[i].key == r[j].key ==> {
            ||| r[i].signal == Signal::ListId && r[j].signal != Signal::ListId
            ||| r[i].signal == Signal::SenderDomain && r[j].signal == Signal::PersonAddress
        },
{
    assert(suggested_before(r[i], r[j]));
}

// ---- which messages belong together ----

/// A message on a list belongs to the list, whoever sent it.
pub proof fn law_lists_come_first(m: MessageView)
    ensures
        m.headers.list_id matches Some(id) ==> class_of(m) == Some((Signal::ListId, id)),
        m.headers.list_id is None && m.headers.from_addr is None ==> class_of(m) is None,
{
}

/// Any other message belongs to its sender: to the domain, which is what follows the last
/// `@` of the address, or, where that is a public provider's, to the address.
pub proof fn law_senders_come_next(m: MessageView, local: Seq<char>, domain: Seq<char>)
    requires
        m.headers.list_id is None,
        m.headers.from_addr == Some(local + seq!['@'] + domain),
        !domain.contains('@'),
    ensures
        class_of(m) == Some(
            if is_public_provider(domain) {
                (Signal::PersonAddress, local + seq!['@'] + domain)
            } else {
                (Signal::SenderDomain, domain)
            },
        ),
{
    law_cut(local, domain, '@');
    law_freemail(domain);
}

/// An address without an `@` is its own domain.
pub proof fn law_bare_senders(m: MessageView, addr: Seq<char>)
    requires
        m.headers.list_id is None,
        m.headers.from_addr == Some(addr),
        !addr.contains('@'),
    ensures
        class_of(m) == Some(
            if is_public_provider(addr) {
                (Signal::PersonAddress, addr)
            } else {
                (Signal::SenderDomain, addr)
            },
        ),
{
    law_cut(addr, addr, '@');
    law_freemail(addr);
}

/// The message belongs to the class.
pub open spec fn belongs(signal: Signal, key: Seq<char>) -> spec_fn(MessageView) -> bool {
    |m: MessageView| class_of(m) == Some((signal, key))
}

/// The messages of a class are those that belong to it, all of them and in order.
pub proof fn law_members(messages: Seq<MessageView>, signal: Signal, key: Seq<char>)
    ensures
        members(messages, (signal, key)) == messages.filter(belongs(signal, key)),
    decreases messages.len(),
{
    reveal(Seq::filter);
    if messages.len() > 0 {
        law_members(messages.drop_last(), signal, key);
    } else {
        assert(members(messages, (signal, key)) =~= messages.filter(belongs(signal, key)));
    }
}

// ---- what is said of a cluster ----

/// The message has a UID.
pub open spec fn has_uid() -> spec_fn(MessageView) -> bool {
    |m: MessageView| m.uid is Some
}

/// The UID of a message that has one.
pub open spec fn its_uid() -> spec_fn(MessageView) -> u32 {
    |m: MessageView| m.uid->0
}

proof fn lemma_uids(ms: Seq<MessageView>)
    ensures
        uids_of(ms) == ms.filter(has_uid()).map_values(its_uid()),
    decreases ms.len(),
{
    reveal(Seq::filter);
    if ms.len() > 0 {
        let rest = ms.drop_last();
        lemma_uids(rest);
        assert(uids_of(ms) =~= ms.filter(has_uid()).map_values(its_uid()));
    } else {
        assert(uids_of(ms) =~= ms.filter(has_uid()).map_values(its_uid()));
    }
}

/// The list is the first three different texts that the field has among the messages, in
/// the order in which they first occur: each occurs, and what occurs before it for the
/// first time precedes it in the list; none is left out unless there are three already.
pub open spec fn first_three(
    list: Seq<Seq<char>>,
    ms: Seq<MessageView>,
    field: spec_fn(MessageView) -> Option<Seq<char>>,
) -> bool {
    &&& list.len() <= 3
    &&& list.no_duplicates()
    &&& forall|b: int|
        #![trigger list[b]]
        0 <= b < list.len() ==> exists|k: int|
            0 <= k < ms.len() && field(#[trigger] ms[k]) == Some(list[b]) && only_those(
                list.take(b),
                ms.take(k),
                field,
            )
    &&& list.len() < 3 ==> only_those(list, ms, field)
}

/// The field has no other texts among the messages.
pub open spec fn only_those(
    list: Seq<Seq<char>>,
    ms: Seq<MessageView>,
    field: spec_fn(MessageView) -> Option<Seq<char>>,
) -> bool {
    forall|k: int|
        0 <= k < ms.len() ==> match field(#[trigger] ms[k]) {
            Some(x) => list.contains(x),
            None => true,
        }
}

proof fn lemma_samples(
    ms: Seq<MessageView>,
    field: spec_fn(MessageView) -> Option<Seq<char>>,
)
    ensures
        first_three(samples(ms, field), ms, field),
    decreases ms.len(),
{
    let all = samples(ms, field);
    if ms.len() > 0 {
        let n = ms.len() - 1;
        let less = ms.drop_last();
        let some = samples(less, field);
        lemma_samples(less, field);
        assert(less =~= ms.take(n));
        assert forall|b: int|
            #![trigger all[b]]
            0 <= b < all.len() implies exists|k: int|
            0 <= k < ms.len() && field(#[trigger] ms[k]) == Some(all[b]) && only_those(
                all.take(b),
                ms.take(k),
                field,
            ) by {
            if b < some.len() {
                assert(all[b] == some[b]);
                let k = choose|k: int|
                    0 <= k < less.len() && field(#[trigger] less[k]) == Some(some[b])
                        && only_those(some.take(b), less.take(k), field);
                assert(ms[k] == less[k]);
                assert(all.take(b) =~= some.take(b));
                assert(ms.take(k) =~= less.take(k));
            } else {
                assert(ms[n] == ms.last());
                assert(all.take(b) =~= some);
            }
        }
        if all.len() < 3 {
            assert forall|k: int| 0 <= k < ms.len() implies match field(#[trigger] ms[k]) {
                Some(x) => all.contains(x),
                None => true,
            } by {
                if k < n {
                    assert(less[k] == ms[k]);
                    if field(ms[k]) is Some {
                        let x = field(ms[k])->0;
                        assert(some.contains(x));
                        let i = some.index_of(x);
                        assert(all[i] == x);
                    }
                } else if field(ms[k]) is Some {
                    let x = field(ms[k])->0;
                    if !some.contains(x) {
                        assert(all[some.len() as int] == x);
                    } else {
                        let i = some.index_of(x);
                        assert(all[i] == x);
                    }
                }
            }
        }
    }
}

/// What a cluster says is true of the messages that belong to it: how many they are, which
/// UIDs they have, whom the first come from and what they are about. It is suggested with
/// high confidence if it is a list, or a domain with twenty messages; with low confidence
/// if it is a person with fewer than that; else with medium confidence.
pub proof fn law_cluster_tells_the_truth<F: Fn(usize, Signal, bool) -> u64>(
    r: Seq<ClusterView>,
    messages: Seq<MessageView>,
    existing: Seq<ExistingView>,
    config: ConfigView,
    score: F,
    i: int,
)
    requires
        suggests(r, messages, existing, config, score),
        0 <= i < r.len(),
    ensures
        ({
            let mine = messages.filter(belongs(r[i].signal, r[i].key));
            &&& r[i].count == mine.len()
            &&& r[i].uids == mine.filter(has_uid()).map_values(its_uid())
            &&& first_three(r[i].sample_senders, mine, |m: MessageView| m.headers.from_addr)
            &&& first_three(r[i].sample_subjects, mine, |m: MessageView| m.headers.subject)
            &&& r[i].confidence == Confidence::High <==> r[i].signal == Signal::ListId || (
            r[i].signal == Signal::SenderDomain && mine.len() >= 20)
            &&& r[i].confidence == Confidence::Low <==> r[i].signal == Signal::PersonAddress
                && mine.len() < 20
        }),
{
    let class = cluster_class(r[i]);
    assert(r[i] == cluster_for(class, messages, existing, config, score));
    law_members(messages, r[i].signal, r[i].key);
    let mine = members(messages, class);
    lemma_uids(mine);
    lemma_samples(mine, sender());
    lemma_samples(mine, subject());
    assert(sender() == (|m: MessageView| m.headers.from_addr));
    assert(subject() == (|m: MessageView| m.headers.subject));
}

/// Only what is worth it is suggested: each cluster has a message at least, as many as the
/// configuration asks for, and a score that is high enough. The score is the one for its
/// size and signal, and for whether its folder exists.
pub proof fn law_only_worthwhile<F: Fn(usize, Signal, bool) -> u64>(
    r: Seq<ClusterView>,
    messages: Seq<MessageView>,
    existing: Seq<ExistingView>,
    config: ConfigView,
    score: F,
    i: int,
    k: u64,
)
    requires
        suggests(r, messages, existing, config, score),
        is_scoring(score),
        messages.len() <= usize::MAX,
        0 <= i < r.len(),
    ensures
        r[i].count > 0,
        r[i].count >= config.min_count,
        r[i].score >= config.min_score,
        r[i].count <= usize::MAX,
        score.ensures((r[i].count as usize, r[i].signal, r[i].destination is Existing), k)
            ==> r[i].score == k,
{
    let class = cluster_class(r[i]);
    assert(surfaces(class, messages, existing, config, score));
    assert(r[i] == cluster_for(class, messages, existing, config, score));
    lemma_members_len(messages, class);
    let reused = r[i].destination is Existing;
    let size = r[i].count as usize;
    if score.ensures((size, r[i].signal, reused), k) {
        assert(score_key(score, r[i].count, r[i].signal, reused) == k);
    }
}

proof fn lemma_members_len(messages: Seq<MessageView>, class: (Signal, Seq<char>))
    ensures
        members(messages, class).len() <= messages.len(),
    decreases messages.len(),
{
    if messages.len() > 0 {
        lemma_members_len(messages.drop_last(), class);
    }
}

/// All that is worth it is suggested: a class with a message at least and as many as the
/// configuration asks for has a cluster, if its score is high enough, be its folder there
/// or not.
pub proof fn law_all_worthwhile<F: Fn(usize, Signal, bool) -> u64>(
    r: Seq<ClusterView>,
    messages: Seq<MessageView>,
    existing: Seq<ExistingView>,
    config: ConfigView,
    score: F,
    signal: Signal,
    key: Seq<char>,
    if_there: u64,
    if_new: u64,
)
    requires
        suggests(r, messages, existing, config, score),
        is_scoring(score),
        messages.len() <= usize::MAX,
        messages.filter(belongs(signal, key)).len() > 0,
        messages.filter(belongs(signal, key)).len() >= config.min_count,
        ({
            let n = messages.filter(belongs(signal, key)).len() as usize;
            &&& score.ensures((n, signal, true), if_there)
            &&& score.ensures((n, signal, false), if_new)
        }),
        if_there >= config.min_score,
        if_new >= config.min_score,
    ensures
        exists|i: int|
            0 <= i < r.len() && (#[trigger] r[i]).signal == signal && r[i].key == key,
{
    let class = (signal, key);
    law_members(messages, signal, key);
    lemma_members_len(messages, class);
    let c = cluster_for(class, messages, existing, config, score);
    let n = members(messages, class).len();
    assert(score_key(score, n, signal, true) == if_there);
    assert(score_key(score, n, signal, false) == if_new);
    assert(surfaces(class, messages, existing, config, score));
    assert(r.contains(c));
    let i = r.index_of(c);
    assert(r[i].signal == signal && r[i].key == key);
}

/// What is clustered is counted: the total is the sum of the counts.
pub proof fn law_total_count(clusters: Seq<ClusterView>, c: ClusterView)
    ensures
        total_count(Seq::empty()) == 0,
        total_count(clusters.push(c)) == total_count(clusters) + c.count,
{
    assert(clusters.push(c).drop_last() =~= clusters);
}

// ---- where a cluster goes ----

/// The first of the messages with a field has it first.
proof fn lemma_first_of(
    ms: Seq<MessageView>,
    field: spec_fn(MessageView) -> Option<Seq<char>>,
    k: int,
)
    requires
        0 <= k <= ms.len(),
        forall|j: int| 0 <= j < k ==> field(#[trigger] ms[j]) is None,
        k < ms.len() ==> field(ms[k]) is Some,
    ensures
        first_of(ms, field) == if k < ms.len() {
            field(ms[k])
        } else {
            None
        },
    decreases ms.len(),
{
    if ms.len() > 0 {
        let less = ms.drop_last();
        assert forall|j: int| 0 <= j < k && j < less.len() implies field(
            #[trigger] less[j],
        ) is None by {
            assert(less[j] == ms[j]);
        }
        if k < less.len() {
            assert(less[k] == ms[k]);
            lemma_first_of(less, field, k);
        } else {
            lemma_first_of(less, field, less.len() as int);
            assert(ms.last() == ms[ms.len() - 1]);
        }
    }
}

/// The name of a domain's folder is that of its owner.
pub proof fn law_domain_named(key: Seq<char>, ms: Seq<MessageView>)
    ensures
        slug_for((Signal::SenderDomain, key), ms) == domain_slug_of(key),
{
}

/// The name of a person's folder comes from the first display name that their messages
/// give, and from the address if that has no letter or digit, or none gives a name.
pub proof fn law_person_named(key: Seq<char>, ms: Seq<MessageView>, k: int)
    requires
        0 <= k <= ms.len(),
        forall|j: int| 0 <= j < k ==> (#[trigger] ms[j]).headers.from_name is None,
        k < ms.len() ==> ms[k].headers.from_name is Some,
    ensures
        k < ms.len() && has_alnum(ms[k].headers.from_name->0) ==> slug_for(
            (Signal::PersonAddress, key),
            ms,
        ) == slug_of(ms[k].headers.from_name->0),
        k == ms.len() || !has_alnum(ms[k].headers.from_name->0) ==> slug_for(
            (Signal::PersonAddress, key),
            ms,
        ) == person_slug_of(key, None),
{
    assert forall|j: int| 0 <= j < k implies display_name()(#[trigger] ms[j]) is None by {}
    lemma_first_of(ms, display_name(), k);
    if k < ms.len() {
        law_slug_exists(ms[k].headers.from_name->0);
    }
}

/// The name of a list's folder is the list's own name, if that can be read. Otherwise it is
/// the first display name, if that can be read; else the owner of the first sender's
/// domain, if that can be read; else the list's own name after all.
pub proof fn law_list_named(
    key: Seq<char>,
    ms: Seq<MessageView>,
    k: int,
    s: int,
    local: Seq<char>,
    domain: Seq<char>,
)
    requires
        0 <= k <= ms.len(),
        forall|j: int| 0 <= j < k ==> (#[trigger] ms[j]).headers.from_name is None,
        k < ms.len() ==> ms[k].headers.from_name is Some,
        0 <= s <= ms.len(),
        forall|j: int| 0 <= j < s ==> (#[trigger] ms[j]).headers.from_addr is None,
        s < ms.len() ==> ms[s].headers.from_addr == Some(local + seq!['@'] + domain),
        !domain.contains('@'),
    ensures
        ({
            let own = list_slug_of(key);
            let by_name = k < ms.len() && has_alnum(ms[k].headers.from_name->0) && !opaque(
                slug_of(ms[k].headers.from_name->0),
            );
            let by_sender = s < ms.len() && !opaque(domain_slug_of(domain));
            slug_for((Signal::ListId, key), ms) == if !opaque(own) {
                own
            } else if by_name {
                slug_of(ms[k].headers.from_name->0)
            } else if by_sender {
                domain_slug_of(domain)
            } else {
                own
            }
        }),
{
    let none = Seq::<char>::empty();
    assert forall|j: int| 0 <= j < k implies display_name()(#[trigger] ms[j]) is None by {}
    lemma_first_of(ms, display_name(), k);
    if k < ms.len() {
        law_slug_exists(ms[k].headers.from_name->0);
        if !has_alnum(ms[k].headers.from_name->0) {
            law_slug_exists(none);
            law_cut(none, none, '@');
            let slug = person_slug_of(none, Some(ms[k].headers.from_name->0));
            assert(slug =~= none);
            law_opaque(slug);
        }
    }
    let senders = samples(ms, sender());
    lemma_samples(ms, sender());
    law_cut(local, domain, '@');
    if s < ms.len() {
        let addr = local + seq!['@'] + domain;
        assert(sender()(ms[s]) == Some(addr));
        if senders.len() == 0 {
            assert(senders.contains(addr));
        }
        assert(senders[0] == senders[0]);
        let f = choose|f: int|
            0 <= f < ms.len() && sender()(#[trigger] ms[f]) == Some(senders[0]) && only_those(
                senders.take(0),
                ms.take(f),
                sender(),
            );
        if f < s {
            assert(ms[f].headers.from_addr is None);
        }
        if s < f {
            assert(ms.take(f)[s] == ms[s]);
            assert(senders.take(0).contains(addr));
        }
        assert(senders[0] == addr);
    } else {
        if senders.len() > 0 {
            assert(senders[0] == senders[0]);
            let f = choose|f: int|
                0 <= f < ms.len() && sender()(#[trigger] ms[f]) == Some(senders[0]) && only_those(
                    senders.take(0),
                    ms.take(f),
                    sender(),
                );
            assert(ms[f].headers.from_addr is None);
        }
    }
}

/// A new folder goes below the parent for its signal, under the name of the cluster: lists
/// below `.lists`, people below `.people`, senders below `.vendors`; but the mail of a work
/// domain goes into `.work`.
pub proof fn law_new_folders_placed<F: Fn(usize, Signal, bool) -> u64>(
    r: Seq<ClusterView>,
    messages: Seq<MessageView>,
    existing: Seq<ExistingView>,
    config: ConfigView,
    score: F,
    i: int,
)
    requires
        suggests(r, messages, existing, config, score),
        0 <= i < r.len(),
    ensures
        ({
            let mine = messages.filter(belongs(r[i].signal, r[i].key));
            let name = slug_for((r[i].signal, r[i].key), mine);
            match r[i].destination {
                DestinationView::New { dotpath } => dotpath == match r[i].signal {
                    Signal::ListId => ".lists/."@ + name,
                    Signal::PersonAddress => ".people/."@ + name,
                    Signal::SenderDomain => if config.work_domains.contains(r[i].key) {
                        ".work"@
                    } else {
                        ".vendors/."@ + name
                    },
                },
                DestinationView::Existing { dotpath } => exists|p: int|
                    0 <= p < existing.len() && (#[trigger] existing[p]).dotpath == dotpath && (
                    existing[p].leaf == name || (dotpath == ".work"@ && r[i].signal
                        == Signal::SenderDomain && config.work_domains.contains(r[i].key))),
            }
        }),
{
    let class = cluster_class(r[i]);
    assert(r[i] == cluster_for(class, messages, existing, config, score));
    law_members(messages, r[i].signal, r[i].key);
    let mine = members(messages, class);
    let name = slug_for(class, mine);
    law_existing_folders_reused(r, messages, existing, config, score, i);
    reveal_strlit(".lists");
    reveal_strlit(".people");
    reveal_strlit(".vendors");
    reveal_strlit("/.");
    reveal_strlit(".lists/.");
    reveal_strlit(".people/.");
    reveal_strlit(".vendors/.");
    assert(".lists"@ + "/."@ =~= ".lists/."@);
    assert(".people"@ + "/."@ =~= ".people/."@);
    assert(".vendors"@ + "/."@ =~= ".vendors/."@);
    match r[i].destination {
        DestinationView::Existing { dotpath } => {
            if has_leaf(existing, name) {
                let p = choose|p: int|
                    0 <= p < existing.len() && (#[trigger] existing[p]).leaf == name
                        && existing[p].dotpath == dotpath && forall|q: int|
                        0 <= q < p ==> (#[trigger] existing[q]).leaf != name;
                assert(existing[p].dotpath == dotpath);
            } else {
                let p = choose|p: int|
                    0 <= p < existing.len() && (#[trigger] existing[p]).dotpath == ".work"@;
                assert(existing[p].dotpath == dotpath);
            }
        },
        DestinationView::New { dotpath } => {},
    }
}

/// The leaf of a folder is its own name: what follows the last slash, without the dots that
/// stand before it.
pub proof fn law_leaf(parent: Seq<char>, dots: Seq<char>, name: Seq<char>)
    requires
        forall|i: int| 0 <= i < dots.len() ==> (#[trigger] dots[i]) == '.',
        name.len() > 0,
        name[0] != '.',
        name.last() != '.',
        !name.contains('/'),
    ensures
        leaf_of(parent + seq!['/'] + (dots + name)) == name,
        leaf_of(dots + name) == name,
{
    let own = dots + name;
    assert(!own.contains('/')) by {
        if own.contains('/') {
            let k = own.index_of('/');
            if k < dots.len() {
                assert(dots[k] == '.');
            } else {
                assert(name[k - dots.len()] == '/');
            }
        }
    }
    law_cut(parent, own, '/');
    law_cut(own, own, '/');
    let set = seq!['.'];
    assert(set[0] == '.');
    assert forall|i: int| 0 <= i < dots.len() implies set.contains(#[trigger] dots[i]) by {
        assert(dots[i] == '.');
    }
    law_trim_set(dots, name, Seq::empty(), set);
}

} // verus!
