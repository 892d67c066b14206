//! Deterministic clustering of inbox messages into proposed sorting folders: same
//! messages in, same clusters out.
//!
//! Scores are floating-point numbers outside this library. Here a score is an order key:
//! an integer that grows with the score. The caller supplies the function from a
//! cluster's size, signal and reuse to the key.

pub mod clusters;
pub mod laws;
pub mod slug;

use vstd::prelude::*;

use crate::model::{
    Cluster, ClusterView, Confidence, Config, ConfigView, Destination, DestinationView, Message,
    MessageView, Signal,
};
use crate::order::{before, lemma_before_total, lemma_before_trans, str_before};
use crate::seqs::{all_views, is_permutation, lemma_permutation_covers, opt_view, picked};
use crate::sort::{is_sorting, placed, sorted_order, Ranked};
use crate::suggest::slug::{
    domain_slug, domain_slug_of, freemail, is_freemail, is_opaque_slug, list_slug, list_slug_of,
    opaque, person_slug, person_slug_of,
};
use crate::text::{
    after_last, clone_opt, clone_texts, from_chars, holds_text, last_piece, opt_text, str_eq,
    texts, to_chars, trim_start_set, trimmed_start_set,
};
use crate::textmap::TextMap;

verus! {

/// A folder that already exists in the cache, for taxonomy reuse. `leaf` is the final
/// path component with leading dots stripped (e.g. ".lists/.elixir" -> "elixir").
#[derive(Debug, Clone)]
pub struct ExistingFolder {
    pub dotpath: String,
    pub leaf: String,
}

/// The view of an [`ExistingFolder`].
#[verifier::ext_equal]
pub ghost struct ExistingView {
    pub dotpath: Seq<char>,
    pub leaf: Seq<char>,
}

impl View for ExistingFolder {
    type V = ExistingView;

    open spec fn view(&self) -> ExistingView {
        ExistingView { dotpath: self.dotpath@, leaf: self.leaf@ }
    }
}

/// The final component of a dotpath, leading dots stripped.
pub open spec fn leaf_of(dotpath: Seq<char>) -> Seq<char> {
    trim_start_set(after_last(dotpath, '/'), seq!['.'])
}

impl ExistingFolder {
    /// The existing folder at `dotpath`.
    pub fn new(dotpath: &str) -> (r: ExistingFolder)
        ensures
            r@ == (ExistingView { dotpath: dotpath@, leaf: leaf_of(dotpath@) }),
    {
        let chars = to_chars(dotpath);
        let dot = ['.'];
        assert(dot@ =~= seq!['.']);
        let leaf = from_chars(trimmed_start_set(last_piece(&chars, '/'), &dot));
        ExistingFolder { dotpath: dotpath.to_string(), leaf }
    }
}

// ---- grouping ----

/// The clustering key of a message: its List-Id; else, for a freemail sender, the
/// address; else the sender's domain. None without any of these.
pub open spec fn class_of(m: MessageView) -> Option<(Signal, Seq<char>)> {
    match (m.headers.list_id, m.headers.from_domain()) {
        (Some(list_id), _) => Some((Signal::ListId, list_id)),
        (None, Some(domain)) => if freemail().contains(domain) {
            Some((Signal::PersonAddress, m.headers.from_addr->0))
        } else {
            Some((Signal::SenderDomain, domain))
        },
        (None, None) => None,
    }
}

/// Choose the clustering key for a message: List-Id > sender-domain > person-address.
/// Returns `(signal, key)` or `None` if the message has no usable signal.
pub fn classify(m: &Message) -> (r: Option<(Signal, String)>)
    ensures
        match r {
            Some((signal, key)) => class_of(m@) == Some((signal, key@)),
            None => class_of(m@) is None,
        },
{
    if let Some(list_id) = &m.headers.list_id {
        return Some((Signal::ListId, list_id.clone()));
    }
    match m.headers.from_domain() {
        Some(domain) => {
            if is_freemail(domain) {
                // Personal mail: the domain says nothing, cluster by the individual.
                match &m.headers.from_addr {
                    Some(addr) => Some((Signal::PersonAddress, addr.clone())),
                    None => None,
                }
            } else {
                Some((Signal::SenderDomain, domain.to_string()))
            }
        },
        None => None,
    }
}

/// The messages of one class, in order.
pub open spec fn members(
    messages: Seq<MessageView>,
    class: (Signal, Seq<char>),
) -> Seq<MessageView>
    decreases messages.len(),
{
    if messages.len() == 0 {
        Seq::empty()
    } else {
        let some = members(messages.drop_last(), class);
        if class_of(messages.last()) == Some(class) {
            some.push(messages.last())
        } else {
            some
        }
    }
}

/// The UIDs of those messages that have one, in order.
pub open spec fn uids_of(ms: Seq<MessageView>) -> Seq<u32>
    decreases ms.len(),
{
    if ms.len() == 0 {
        Seq::empty()
    } else {
        let some = uids_of(ms.drop_last());
        match ms.last().uid {
            Some(uid) => some.push(uid),
            None => some,
        }
    }
}

/// The first three different texts that `field` gives for the messages.
pub open spec fn samples(
    ms: Seq<MessageView>,
    field: spec_fn(MessageView) -> Option<Seq<char>>,
) -> Seq<Seq<char>>
    decreases ms.len(),
{
    if ms.len() == 0 {
        Seq::empty()
    } else {
        let some = samples(ms.drop_last(), field);
        match field(ms.last()) {
            Some(x) => if some.len() < 3 && !some.contains(x) {
                some.push(x)
            } else {
                some
            },
            None => some,
        }
    }
}

/// The first text that `field` gives for the messages.
pub open spec fn first_of(
    ms: Seq<MessageView>,
    field: spec_fn(MessageView) -> Option<Seq<char>>,
) -> Option<Seq<char>>
    decreases ms.len(),
{
    if ms.len() == 0 {
        None
    } else {
        let some = first_of(ms.drop_last(), field);
        if some is Some {
            some
        } else {
            field(ms.last())
        }
    }
}

/// The sender's address.
pub open spec fn sender() -> spec_fn(MessageView) -> Option<Seq<char>> {
    |m: MessageView| m.headers.from_addr
}

/// The subject.
pub open spec fn subject() -> spec_fn(MessageView) -> Option<Seq<char>> {
    |m: MessageView| m.headers.subject
}

/// The sender's display name.
pub open spec fn display_name() -> spec_fn(MessageView) -> Option<Seq<char>> {
    |m: MessageView| m.headers.from_name
}

/// Accumulator for one cluster before scoring.
struct Bucket {
    signal: Signal,
    key: String,
    count: usize,
    senders: Vec<String>,
    subjects: Vec<String>,
    uids: Vec<u32>,
    // For slug generation of person buckets.
    from_name: Option<String>,
}

impl Bucket {
    /// What the bucket collects is what the messages hold.
    spec fn collects(&self, ms: Seq<MessageView>) -> bool {
        &&& self.count == ms.len()
        &&& texts(self.senders@) == samples(ms, sender())
        &&& texts(self.subjects@) == samples(ms, subject())
        &&& self.uids@ == uids_of(ms)
        &&& opt_text(self.from_name) == first_of(ms, display_name())
    }

    /// The class of the bucket.
    spec fn class(&self) -> (Signal, Seq<char>) {
        (self.signal, self.key@)
    }
}

/// Add `text` to `list` if it is there, new, and among the first three.
fn sample(list: &mut Vec<String>, text: &Option<String>)
    ensures
        texts(final(list)@) == match opt_text(*text) {
            Some(x) => if old(list)@.len() < 3 && !texts(old(list)@).contains(x) {
                texts(old(list)@).push(x)
            } else {
                texts(old(list)@)
            },
            None => texts(old(list)@),
        },
{
    if let Some(x) = text {
        if list.len() < 3 && !holds_text(list, x) {
            list.push(x.clone());
            assert(texts(list@) =~= texts(old(list)@).push(x@));
        }
    }
}

/// Add one message to a bucket.
fn gather(b: &mut Bucket, m: &Message, Ghost(ms): Ghost<Seq<MessageView>>)
    requires
        old(b).collects(ms),
        ms.len() < usize::MAX,
    ensures
        final(b).collects(ms.push(m@)),
        final(b).class() == old(b).class(),
{
    let ghost more = ms.push(m@);
    assert(more.drop_last() =~= ms);
    b.count += 1;
    if let Some(uid) = m.uid {
        b.uids.push(uid);
    }
    sample(&mut b.senders, &m.headers.from_addr);
    if b.from_name.is_none() {
        b.from_name = clone_opt(&m.headers.from_name);
    }
    sample(&mut b.subjects, &m.headers.subject);
}

/// A character for each signal.
spec fn mark(signal: Signal) -> char {
    match signal {
        Signal::ListId => 'l',
        Signal::SenderDomain => 'd',
        Signal::PersonAddress => 'p',
    }
}

/// The text by which a class is looked up.
spec fn label(class: (Signal, Seq<char>)) -> Seq<char> {
    seq![mark(class.0)] + class.1
}

/// Classes with the same label are the same.
proof fn lemma_label(a: (Signal, Seq<char>), b: (Signal, Seq<char>))
    requires
        label(a) == label(b),
    ensures
        a == b,
{
    assert(label(a)[0] == mark(a.0) && label(b)[0] == mark(b.0));
    assert(a.0 == b.0);
    assert(label(a).skip(1) =~= a.1);
    assert(label(b).skip(1) =~= b.1);
}

/// The text by which a class is looked up.
fn make_label(signal: Signal, key: &str) -> (r: String)
    ensures
        r@ == label((signal, key@)),
{
    let mut r = String::new();
    r.push(match signal {
        Signal::ListId => 'l',
        Signal::SenderDomain => 'd',
        Signal::PersonAddress => 'p',
    });
    r.push_str(key);
    assert(r@ =~= label((signal, key@)));
    r
}

/// The members of a class among one message more.
proof fn lemma_members(messages: Seq<MessageView>, i: int, class: (Signal, Seq<char>))
    requires
        0 <= i < messages.len(),
    ensures
        members(messages.take(i + 1), class) == if class_of(messages[i]) == Some(class) {
            members(messages.take(i), class).push(messages[i])
        } else {
            members(messages.take(i), class)
        },
        members(messages.take(i), class).len() <= i,
    decreases i,
{
    assert(messages.take(i + 1).drop_last() =~= messages.take(i));
    if i > 0 {
        lemma_members(messages, i - 1, class);
    }
}

/// The buckets are the classes of the messages, each once, each with what its messages
/// hold.
spec fn sorted_out(
    buckets: Seq<Bucket>,
    index: Map<Seq<char>, usize>,
    messages: Seq<MessageView>,
) -> bool {
    &&& forall|j: int|
        0 <= j < buckets.len() ==> {
            let class = (#[trigger] buckets[j]).class();
            &&& index.contains_key(label(class))
            &&& index[label(class)] == j
            &&& buckets[j].collects(members(messages, class))
            &&& members(messages, class).len() > 0
        }
    &&& forall|l: Seq<char>| #[trigger]
        index.contains_key(l) ==> index[l] < buckets.len() && label(
            buckets[index[l] as int].class(),
        ) == l
    &&& forall|class: (Signal, Seq<char>)|
        (#[trigger] members(messages, class)).len() > 0 ==> index.contains_key(label(class))
}

/// Group messages into buckets, one for each class.
fn group(messages: &[Message]) -> (r: Vec<Bucket>)
    ensures
        forall|j: int|
            0 <= j < r@.len() ==> (#[trigger] r@[j]).collects(
                members(all_views(messages@), r@[j].class()),
            ) && members(all_views(messages@), r@[j].class()).len() > 0,
        forall|i: int, j: int|
            0 <= i < j < r@.len() ==> (#[trigger] r@[i]).class() != (#[trigger] r@[j]).class(),
        forall|class: (Signal, Seq<char>)|
            (#[trigger] members(all_views(messages@), class)).len() > 0 ==> exists|j: int|
                0 <= j < r@.len() && (#[trigger] r@[j]).class() == class,
{
    let ghost all = all_views(messages@);
    let mut index: TextMap<usize> = TextMap::new();
    let mut buckets: Vec<Bucket> = Vec::new();
    assert(all.take(0) =~= Seq::empty());
    for i in 0..messages.len()
        invariant
            all == all_views(messages@),
            sorted_out(buckets@, index@, all.take(i as int)),
    {
        let m = &messages[i];
        let ghost before = all.take(i as int);
        let ghost now = all.take(i + 1);
        let ghost old_buckets = buckets@;
        let ghost old_index = index@;
        proof {
            assert(all[i as int] == m@);
            assert forall|class: (Signal, Seq<char>)| #[trigger] members(now, class) == if class_of(
                m@,
            ) == Some(class) {
                members(before, class).push(m@)
            } else {
                members(before, class)
            } by {
                lemma_members(all, i as int, class);
            }
        }
        if let Some((signal, key)) = classify(m) {
            let ghost class = (signal, key@);
            let l = make_label(signal, &key);
            let found: Option<usize> = match index.get(&l) {
                Some(j) => Some(*j),
                None => None,
            };
            match found {
                Some(j) => {
                    proof {
                        lemma_label(buckets@[j as int].class(), class);
                        lemma_members(all, i as int, class);
                    }
                    gather(&mut buckets[j], m, Ghost(members(before, class)));
                    proof {
                        assert forall|k: int| 0 <= k < buckets@.len() implies {
                            let c = (#[trigger] buckets@[k]).class();
                            &&& index@.contains_key(label(c))
                            &&& index@[label(c)] == k
                            &&& buckets@[k].collects(members(now, c))
                            &&& members(now, c).len() > 0
                        } by {
                            let c = old_buckets[k].class();
                            assert(old_buckets[k].collects(members(before, c)));
                            if k != j {
                                assert(buckets@[k] == old_buckets[k]);
                                assert(c != class);
                            }
                        }
                        assert forall|x: Seq<char>| #[trigger] index@.contains_key(x) implies {
                            &&& index@[x] < buckets@.len()
                            &&& label(buckets@[index@[x] as int].class()) == x
                        } by {
                            assert(old_buckets[index@[x] as int].class()
                                == buckets@[index@[x] as int].class());
                        }
                        assert forall|c: (Signal, Seq<char>)|
                            (#[trigger] members(now, c)).len() > 0 implies index@.contains_key(
                            label(c),
                        ) by {
                            if c != class {
                                assert(members(before, c).len() > 0);
                            }
                        }
                    }
                },
                None => {
                    proof {
                        assert(!index@.contains_key(label(class)));
                        assert(members(before, class).len() == 0);
                    }
                    let mut b = Bucket {
                        signal,
                        key,
                        count: 0,
                        senders: Vec::new(),
                        subjects: Vec::new(),
                        uids: Vec::new(),
                        from_name: None,
                    };
                    proof {
                        assert(members(before, class) =~= Seq::empty());
                        assert(texts(b.senders@) =~= Seq::empty());
                        assert(texts(b.subjects@) =~= Seq::empty());
                        assert(b.uids@ =~= Seq::empty());
                    }
                    gather(&mut b, m, Ghost(members(before, class)));
                    index.insert(l, buckets.len());
                    buckets.push(b);
                    proof {
                        assert forall|k: int| 0 <= k < buckets@.len() implies {
                            let c = (#[trigger] buckets@[k]).class();
                            &&& index@.contains_key(label(c))
                            &&& index@[label(c)] == k
                            &&& buckets@[k].collects(members(now, c))
                            &&& members(now, c).len() > 0
                        } by {
                            if k < old_buckets.len() {
                                let c = old_buckets[k].class();
                                assert(buckets@[k] == old_buckets[k]);
                                assert(old_index.contains_key(label(c)));
                                assert(c != class);
                            }
                        }
                        assert forall|x: Seq<char>| #[trigger] index@.contains_key(x) implies {
                            &&& index@[x] < buckets@.len()
                            &&& label(buckets@[index@[x] as int].class()) == x
                        } by {
                            if x != label(class) {
                                assert(old_index.contains_key(x));
                                assert(buckets@[index@[x] as int] == old_buckets[index@[x] as int]);
                            }
                        }
                        assert forall|c: (Signal, Seq<char>)|
                            (#[trigger] members(now, c)).len() > 0 implies index@.contains_key(
                            label(c),
                        ) by {
                            if c != class {
                                assert(members(before, c).len() > 0);
                            }
                        }
                    }
                },
            }
        } else {
            proof {
                assert forall|k: int| 0 <= k < buckets@.len() implies {
                    let c = (#[trigger] buckets@[k]).class();
                    &&& index@.contains_key(label(c))
                    &&& index@[label(c)] == k
                    &&& buckets@[k].collects(members(now, c))
                    &&& members(now, c).len() > 0
                } by {
                    assert(members(now, buckets@[k].class()) == members(
                        before,
                        buckets@[k].class(),
                    ));
                }
                assert forall|c: (Signal, Seq<char>)|
                    (#[trigger] members(now, c)).len() > 0 implies index@.contains_key(
                    label(c),
                ) by {
                    assert(members(before, c).len() > 0);
                }
            }
        }
    }
    proof {
        assert(all.take(messages@.len() as int) =~= all);
        assert forall|i: int, j: int| 0 <= i < j < buckets@.len() implies (
        #[trigger] buckets@[i]).class() != (#[trigger] buckets@[j]).class() by {
            assert(index@[label(buckets@[i].class())] == i);
            assert(index@[label(buckets@[j].class())] == j);
        }
        assert forall|class: (Signal, Seq<char>)|
            (#[trigger] members(all, class)).len() > 0 implies exists|j: int|
            0 <= j < buckets@.len() && (#[trigger] buckets@[j]).class() == class by {
            let j = index@[label(class)] as int;
            lemma_label(buckets@[j].class(), class);
        }
    }
    buckets
}

// ---- destinations ----

/// The slug for a class of messages. A List-Id whose own slug is opaque gives way to the
/// sender's display name, then to the sender's domain, if those are readable.
pub open spec fn slug_for(class: (Signal, Seq<char>), ms: Seq<MessageView>) -> Seq<char> {
    let name = first_of(ms, display_name());
    match class.0 {
        Signal::ListId => {
            let own = list_slug_of(class.1);
            let named = person_slug_of(Seq::empty(), name);
            let senders = samples(ms, sender());
            let domain = domain_slug_of(after_last(senders[0], '@'));
            if !opaque(own) {
                own
            } else if name is Some && !opaque(named) {
                named
            } else if senders.len() > 0 && !opaque(domain) {
                domain
            } else {
                own
            }
        },
        Signal::SenderDomain => domain_slug_of(class.1),
        Signal::PersonAddress => person_slug_of(class.1, name),
    }
}

/// The position of the first existing folder with the given leaf, or the number of
/// folders where there is none.
pub open spec fn first_leaf(existing: Seq<ExistingView>, leaf: Seq<char>) -> int
    decreases existing.len(),
{
    if existing.len() == 0 || existing[0].leaf == leaf {
        0
    } else {
        1 + first_leaf(existing.skip(1), leaf)
    }
}

/// One of the folders is at `dotpath`.
pub open spec fn has_folder(existing: Seq<ExistingView>, dotpath: Seq<char>) -> bool {
    exists|i: int| 0 <= i < existing.len() && (#[trigger] existing[i]).dotpath == dotpath
}

/// The class is the mail of a work domain.
pub open spec fn is_work(class: (Signal, Seq<char>), config: ConfigView) -> bool {
    class.0 == Signal::SenderDomain && config.work_domains.contains(class.1)
}

/// Where a class of messages goes, and whether that reuses an existing folder: into the
/// first existing folder whose leaf is the slug, else into a new folder under the parent
/// for its signal. Mail of a work domain goes to `.work` instead, which is reused if it
/// exists.
pub open spec fn destination_for(
    class: (Signal, Seq<char>),
    ms: Seq<MessageView>,
    existing: Seq<ExistingView>,
    config: ConfigView,
) -> (DestinationView, bool) {
    let slug = slug_for(class, ms);
    let p = first_leaf(existing, slug);
    if p < existing.len() {
        (DestinationView::Existing { dotpath: existing[p].dotpath }, true)
    } else if is_work(class, config) {
        if has_folder(existing, ".work"@) {
            (DestinationView::Existing { dotpath: ".work"@ }, true)
        } else {
            (DestinationView::New { dotpath: ".work"@ }, false)
        }
    } else {
        let parent = match class.0 {
            Signal::ListId => ".lists"@,
            Signal::PersonAddress => ".people"@,
            Signal::SenderDomain => ".vendors"@,
        };
        (DestinationView::New { dotpath: parent + "/."@ + slug }, false)
    }
}

/// The slug for a bucket.
fn choose_slug(signal: Signal, b: &Bucket, Ghost(ms): Ghost<Seq<MessageView>>) -> (r: String)
    requires
        b.collects(ms),
        b.signal == signal,
    ensures
        r@ == slug_for(b.class(), ms),
{
    let name: Option<&str> = match &b.from_name {
        Some(n) => Some(n.as_str()),
        None => None,
    };
    match signal {
        Signal::ListId => {
            let own = list_slug(&b.key);
            if !is_opaque_slug(&own) {
                return own;
            }
            if name.is_some() {
                let empty = String::new();
                assert(empty@ =~= Seq::empty());
                let named = person_slug(&empty, name);
                if !is_opaque_slug(&named) {
                    return named;
                }
            }
            if b.senders.len() > 0 {
                assert(texts(b.senders@)[0] == b.senders@[0]@);
                let chars = to_chars(&b.senders[0]);
                let domain = domain_slug(&from_chars(last_piece(&chars, '@')));
                if !is_opaque_slug(&domain) {
                    return domain;
                }
            }
            own
        },
        Signal::SenderDomain => domain_slug(&b.key),
        Signal::PersonAddress => person_slug(&b.key, name),
    }
}

/// Whether one of the folders is at `dotpath`.
fn folder_exists(existing: &[ExistingFolder], dotpath: &str) -> (r: bool)
    ensures
        r == has_folder(all_views(existing@), dotpath@),
{
    let ghost folders = all_views(existing@);
    let mut i: usize = 0;
    while i < existing.len()
        invariant
            folders == all_views(existing@),
            i <= existing@.len(),
            forall|j: int| 0 <= j < i ==> (#[trigger] folders[j]).dotpath != dotpath@,
        decreases existing@.len() - i,
    {
        assert(folders[i as int] == existing@[i as int]@);
        if str_eq(&existing[i].dotpath, dotpath) {
            return true;
        }
        i += 1;
    }
    false
}

/// Decide the destination folder and whether it reuses an existing one.
fn choose_destination(
    signal: Signal,
    b: &Bucket,
    existing: &[ExistingFolder],
    config: &Config,
    Ghost(ms): Ghost<Seq<MessageView>>,
) -> (r: (Destination, bool))
    requires
        b.collects(ms),
        b.signal == signal,
    ensures
        (r.0@, r.1) == destination_for(b.class(), ms, all_views(existing@), config@),
{
    let slug = choose_slug(signal, b, Ghost(ms));
    let ghost folders = all_views(existing@);
    let mut p: usize = 0;
    assert(folders.skip(0) =~= folders);
    // Taxonomy reuse: if an existing folder's leaf equals the slug, file into it.
    while p < existing.len()
        invariant
            folders == all_views(existing@),
            p <= existing@.len(),
            slug@ == slug_for(b.class(), ms),
            first_leaf(folders, slug@) == p + first_leaf(folders.skip(p as int), slug@),
        decreases existing@.len() - p,
    {
        assert(folders.skip(p as int)[0] == existing@[p as int]@);
        assert(folders.skip(p as int).skip(1) =~= folders.skip(p + 1));
        if str_eq(&existing[p].leaf, &slug) {
            return (Destination::Existing { dotpath: existing[p].dotpath.clone() }, true);
        }
        p += 1;
    }
    let parent = match signal {
        Signal::ListId => ".lists",
        Signal::PersonAddress => ".people",
        Signal::SenderDomain => {
            if holds_text(&config.work_domains, &b.key) {
                let dotpath = ".work".to_string();
                if folder_exists(existing, ".work") {
                    return (Destination::Existing { dotpath }, true);
                }
                return (Destination::New { dotpath }, false);
            }
            ".vendors"
        },
    };
    let mut dotpath = parent.to_string();
    dotpath.push_str("/.");
    dotpath.push_str(&slug);
    (Destination::New { dotpath }, false)
}

/// How sure the engine is of a cluster with that signal and size.
pub open spec fn confidence_of(signal: Signal, count: nat) -> Confidence {
    match signal {
        Signal::ListId => Confidence::High,
        Signal::SenderDomain => if count >= 20 {
            Confidence::High
        } else {
            Confidence::Medium
        },
        Signal::PersonAddress => if count >= 20 {
            Confidence::Medium
        } else {
            Confidence::Low
        },
    }
}

fn confidence(signal: Signal, count: usize) -> (r: Confidence)
    ensures
        r == confidence_of(signal, count as nat),
{
    match signal {
        Signal::ListId => Confidence::High,
        Signal::SenderDomain => if count >= 20 {
            Confidence::High
        } else {
            Confidence::Medium
        },
        Signal::PersonAddress => if count >= 20 {
            Confidence::Medium
        } else {
            Confidence::Low
        },
    }
}

// ---- ranking ----

/// The cluster `a` is suggested before `b`: by score, then count, both descending, then
/// by key, then by signal.
pub open spec fn suggested_before(a: ClusterView, b: ClusterView) -> bool {
    if a.score != b.score {
        a.score > b.score
    } else if a.count != b.count {
        a.count > b.count
    } else if a.key != b.key {
        before(a.key, b.key)
    } else {
        a.signal.index() < b.signal.index()
    }
}

impl Ranked for Cluster {
    open spec fn ranks(a: ClusterView, b: ClusterView) -> bool {
        suggested_before(a, b)
    }

    proof fn lemma_ranks(a: ClusterView, b: ClusterView, c: ClusterView) {
        lemma_suggested(a, b, c);
    }

    fn ranked_before(&self, other: &Cluster) -> (r: bool) {
        proof {
            lemma_before_total(self.key@, other.key@);
        }
        if self.score != other.score {
            self.score > other.score
        } else if self.count != other.count {
            self.count > other.count
        } else if str_before(&self.key, &other.key) {
            true
        } else if str_before(&other.key, &self.key) {
            false
        } else {
            match (self.signal, other.signal) {
                (Signal::ListId, Signal::SenderDomain) => true,
                (Signal::ListId, Signal::PersonAddress) => true,
                (Signal::SenderDomain, Signal::PersonAddress) => true,
                _ => false,
            }
        }
    }
}

/// The order of suggestions is a strict order, total on different classes.
pub proof fn lemma_suggested(a: ClusterView, b: ClusterView, c: ClusterView)
    ensures
        !suggested_before(a, a),
        suggested_before(a, b) && suggested_before(b, c) ==> suggested_before(a, c),
        suggested_before(a, b) ==> suggested_before(a, c) || suggested_before(c, b),
        (a.signal, a.key) != (b.signal, b.key) ==> suggested_before(a, b) || suggested_before(b, a),
        !(suggested_before(a, b) && suggested_before(b, a)),
{
    lemma_before_total(a.key, b.key);
    lemma_before_total(b.key, c.key);
    lemma_before_total(a.key, c.key);
    if before(a.key, b.key) && before(b.key, c.key) {
        lemma_before_trans(a.key, b.key, c.key);
    }
    if before(c.key, a.key) && before(a.key, b.key) {
        lemma_before_trans(c.key, a.key, b.key);
    }
    if before(b.key, c.key) && before(c.key, a.key) {
        lemma_before_trans(b.key, c.key, a.key);
    }
}

// ---- suggestions ----

/// The score function can be called on anything, and what it returns depends on its
/// arguments alone.
pub open spec fn is_scoring<F: Fn(usize, Signal, bool) -> u64>(score: F) -> bool {
    &&& forall|count: usize, signal: Signal, reused: bool| #[trigger]
        score.requires((count, signal, reused))
    &&& forall|count: usize, signal: Signal, reused: bool, a: u64, b: u64|
        #[trigger] score.ensures((count, signal, reused), a) && #[trigger] score.ensures(
            (count, signal, reused),
            b,
        ) ==> a == b
}

/// The order key that the score function gives.
pub open spec fn score_key<F: Fn(usize, Signal, bool) -> u64>(
    score: F,
    count: nat,
    signal: Signal,
    reused: bool,
) -> u64 {
    let size = count as usize;
    choose|k: u64| #[trigger] score.ensures((size, signal, reused), k)
}

/// The cluster that a class of messages makes.
pub open spec fn cluster_for<F: Fn(usize, Signal, bool) -> u64>(
    class: (Signal, Seq<char>),
    messages: Seq<MessageView>,
    existing: Seq<ExistingView>,
    config: ConfigView,
    score: F,
) -> ClusterView {
    let ms = members(messages, class);
    let (destination, reused) = destination_for(class, ms, existing, config);
    ClusterView {
        key: class.1,
        signal: class.0,
        destination,
        count: ms.len(),
        score: score_key(score, ms.len(), class.0, reused),
        confidence: confidence_of(class.0, ms.len()),
        sample_senders: samples(ms, sender()),
        sample_subjects: samples(ms, subject()),
        uids: uids_of(ms),
    }
}

/// A class of messages is worth suggesting: it has messages, enough of them, and scores
/// high enough.
pub open spec fn surfaces<F: Fn(usize, Signal, bool) -> u64>(
    class: (Signal, Seq<char>),
    messages: Seq<MessageView>,
    existing: Seq<ExistingView>,
    config: ConfigView,
    score: F,
) -> bool {
    let cluster = cluster_for(class, messages, existing, config, score);
    cluster.count > 0 && cluster.count >= config.min_count && cluster.score >= config.min_score
}

/// The class of a cluster.
pub open spec fn cluster_class(c: ClusterView) -> (Signal, Seq<char>) {
    (c.signal, c.key)
}

/// `r` are the suggestions for the messages: one cluster for each class that surfaces and
/// no other, in the order of suggestions.
pub open spec fn suggests<F: Fn(usize, Signal, bool) -> u64>(
    r: Seq<ClusterView>,
    messages: Seq<MessageView>,
    existing: Seq<ExistingView>,
    config: ConfigView,
    score: F,
) -> bool {
    &&& forall|i: int|
        0 <= i < r.len() ==> {
            let class = cluster_class(#[trigger] r[i]);
            &&& surfaces(class, messages, existing, config, score)
            &&& r[i] == cluster_for(class, messages, existing, config, score)
        }
    &&& forall|class: (Signal, Seq<char>)| #[trigger]
        surfaces(class, messages, existing, config, score) ==> r.contains(
            cluster_for(class, messages, existing, config, score),
        )
    &&& forall|i: int, j: int|
        0 <= i < j < r.len() ==> suggested_before(#[trigger] r[i], #[trigger] r[j])
}

/// The cluster to suggest for a class of messages, if it is worth suggesting.
#[verifier::opaque]
spec fn offered<F: Fn(usize, Signal, bool) -> u64>(
    class: (Signal, Seq<char>),
    messages: Seq<MessageView>,
    existing: Seq<ExistingView>,
    config: ConfigView,
    score: F,
) -> Option<ClusterView> {
    if surfaces(class, messages, existing, config, score) {
        Some(cluster_for(class, messages, existing, config, score))
    } else {
        None
    }
}

/// What is offered is of the class it is offered for, which has messages.
proof fn lemma_offered<F: Fn(usize, Signal, bool) -> u64>(
    class: (Signal, Seq<char>),
    messages: Seq<MessageView>,
    existing: Seq<ExistingView>,
    config: ConfigView,
    score: F,
)
    ensures
        offered(class, messages, existing, config, score) is Some ==> {
            &&& cluster_class(offered(class, messages, existing, config, score)->0) == class
            &&& members(messages, class).len() > 0
        },
{
    reveal(offered);
}

/// The cluster of a bucket, if it is worth suggesting.
fn weigh<F: Fn(usize, Signal, bool) -> u64>(
    b: &Bucket,
    existing: &[ExistingFolder],
    config: &Config,
    score: &F,
    Ghost(messages): Ghost<Seq<MessageView>>,
) -> (r: Option<Cluster>)
    requires
        is_scoring(*score),
        b.collects(members(messages, b.class())),
        members(messages, b.class()).len() > 0,
    ensures
        opt_view(r) == offered(b.class(), messages, all_views(existing@), config@, *score),
{
    let ghost ms = members(messages, b.class());
    reveal(offered);
    if b.count < config.min_count {
        return None;
    }
    let signal = b.signal;
    let (destination, reused) = choose_destination(signal, b, existing, config, Ghost(ms));
    let key: u64 = score(b.count, signal, reused);
    assert(key == score_key(*score, ms.len(), signal, reused));
    if key < config.min_score {
        return None;
    }
    let mut uids: Vec<u32> = Vec::new();
    for i in 0..b.uids.len()
        invariant
            uids@ == b.uids@.take(i as int),
    {
        uids.push(b.uids[i]);
        assert(b.uids@.take(i + 1) =~= b.uids@.take(i as int).push(b.uids@[i as int]));
    }
    assert(b.uids@.take(b.uids@.len() as int) =~= b.uids@);
    Some(
        Cluster {
            key: b.key.clone(),
            signal,
            destination,
            count: b.count,
            score: key,
            confidence: confidence(signal, b.count),
            sample_senders: clone_texts(&b.senders),
            sample_subjects: clone_texts(&b.subjects),
            uids,
        },
    )
}

/// Each cluster is what is offered for its class, no class occurs twice, and what is
/// offered for one of the given classes is there.
spec fn harvested<F: Fn(usize, Signal, bool) -> u64>(
    found: Seq<ClusterView>,
    classes: Seq<(Signal, Seq<char>)>,
    messages: Seq<MessageView>,
    existing: Seq<ExistingView>,
    config: ConfigView,
    score: F,
) -> bool {
    &&& forall|k: int|
        0 <= k < found.len() ==> offered(
            cluster_class(#[trigger] found[k]),
            messages,
            existing,
            config,
            score,
        ) == Some(found[k]) && classes.contains(cluster_class(found[k]))
    &&& forall|a: int, b: int|
        0 <= a < b < found.len() ==> cluster_class(#[trigger] found[a]) != cluster_class(
            #[trigger] found[b],
        )
    &&& forall|j: int|
        0 <= j < classes.len() ==> match offered(
            #[trigger] classes[j],
            messages,
            existing,
            config,
            score,
        ) {
            Some(c) => found.contains(c),
            None => true,
        }
}

/// One class more, of which nothing is known yet.
proof fn lemma_harvest<F: Fn(usize, Signal, bool) -> u64>(
    found: Seq<ClusterView>,
    classes: Seq<(Signal, Seq<char>)>,
    class: (Signal, Seq<char>),
    messages: Seq<MessageView>,
    existing: Seq<ExistingView>,
    config: ConfigView,
    score: F,
)
    requires
        harvested(found, classes, messages, existing, config, score),
        !classes.contains(class),
    ensures
        match offered(class, messages, existing, config, score) {
            Some(c) => harvested(
                found.push(c),
                classes.push(class),
                messages,
                existing,
                config,
                score,
            ),
            None => harvested(found, classes.push(class), messages, existing, config, score),
        },
{
    lemma_offered(class, messages, existing, config, score);
    let more = classes.push(class);
    assert forall|x: (Signal, Seq<char>)| classes.contains(x) implies more.contains(x) by {
        let i = classes.index_of(x);
        assert(more[i] == x);
    }
    assert(more[classes.len() as int] == class);
    if let Some(c) = offered(class, messages, existing, config, score) {
        let longer = found.push(c);
        assert(longer[found.len() as int] == c);
        assert forall|x: ClusterView| found.contains(x) implies longer.contains(x) by {
            let i = found.index_of(x);
            assert(longer[i] == x);
        }
        assert forall|k: int| 0 <= k < longer.len() implies offered(
            cluster_class(#[trigger] longer[k]),
            messages,
            existing,
            config,
            score,
        ) == Some(longer[k]) && more.contains(cluster_class(longer[k])) by {
            if k < found.len() {
                assert(longer[k] == found[k]);
            }
        }
        assert forall|a: int, b: int| 0 <= a < b < longer.len() implies cluster_class(
            #[trigger] longer[a],
        ) != cluster_class(#[trigger] longer[b]) by {
            assert(longer[a] == found[a]);
            if b < found.len() {
                assert(longer[b] == found[b]);
            }
        }
    }
    assert forall|j: int| 0 <= j < more.len() implies match offered(
        #[trigger] more[j],
        messages,
        existing,
        config,
        score,
    ) {
        Some(c) => match offered(class, messages, existing, config, score) {
            Some(d) => found.push(d).contains(c),
            None => found.contains(c),
        },
        None => true,
    } by {
        if j < classes.len() {
            assert(more[j] == classes[j]);
        }
    }
}

/// The classes of some buckets.
spec fn bucket_classes(buckets: Seq<Bucket>) -> Seq<(Signal, Seq<char>)> {
    Seq::new(buckets.len(), |i: int| buckets[i].class())
}

/// The clusters of those buckets that are worth suggesting.
fn harvest<F: Fn(usize, Signal, bool) -> u64>(
    buckets: &Vec<Bucket>,
    existing: &[ExistingFolder],
    config: &Config,
    score: &F,
    Ghost(ms): Ghost<Seq<MessageView>>,
) -> (r: Vec<Cluster>)
    requires
        is_scoring(*score),
        forall|j: int|
            0 <= j < buckets@.len() ==> (#[trigger] buckets@[j]).collects(
                members(ms, buckets@[j].class()),
            ) && members(ms, buckets@[j].class()).len() > 0,
        forall|i: int, j: int|
            0 <= i < j < buckets@.len() ==> (#[trigger] buckets@[i]).class() != (
            #[trigger] buckets@[j]).class(),
    ensures
        harvested(
            all_views(r@),
            bucket_classes(buckets@),
            ms,
            all_views(existing@),
            config@,
            *score,
        ),
{
    let ghost folders = all_views(existing@);
    let ghost classes = bucket_classes(buckets@);
    let mut found: Vec<Cluster> = Vec::new();
    assert(all_views(found@) =~= Seq::empty());
    for i in 0..buckets.len()
        invariant
            is_scoring(*score),
            folders == all_views(existing@),
            classes == bucket_classes(buckets@),
            forall|j: int|
                0 <= j < buckets@.len() ==> (#[trigger] buckets@[j]).collects(
                    members(ms, buckets@[j].class()),
                ) && members(ms, buckets@[j].class()).len() > 0,
            forall|a: int, b: int|
                0 <= a < b < buckets@.len() ==> (#[trigger] buckets@[a]).class() != (
                #[trigger] buckets@[b]).class(),
            harvested(
                all_views(found@),
                classes.take(i as int),
                ms,
                folders,
                config@,
                *score,
            ),
    {
        let ghost was = all_views(found@);
        proof {
            let class = buckets@[i as int].class();
            let some = classes.take(i as int);
            assert(!some.contains(class)) by {
                if some.contains(class) {
                    let j = some.index_of(class);
                    assert(some[j] == buckets@[j].class());
                }
            }
            lemma_harvest(was, some, class, ms, folders, config@, *score);
            assert(classes.take(i + 1) =~= some.push(class));
        }
        match weigh(&buckets[i], existing, config, score, Ghost(ms)) {
            Some(c) => {
                found.push(c);
                assert(all_views(found@) =~= was.push(c@));
            },
            None => {},
        }
    }
    assert(classes.take(buckets@.len() as int) =~= classes);
    found
}

/// The clusters in the order of suggestions.
fn ranked(found: &Vec<Cluster>) -> (r: Vec<Cluster>)
    ensures
        exists|order: Seq<usize>| #[trigger]
            is_sorting::<Cluster>(all_views(found@), order) && all_views(r@) == picked(
                all_views(found@),
                order,
            ),
{
    let order = sorted_order(found);
    let ghost given = all_views(found@);
    let mut out: Vec<Cluster> = Vec::new();
    for i in 0..order.len()
        invariant
            given == all_views(found@),
            is_permutation(order@, given.len()),
            all_views(out@) == picked(given, order@).take(i as int),
    {
        let ghost was = all_views(out@);
        out.push(found[order[i]].clone());
        assert(all_views(out@) =~= was.push(given[order@[i as int] as int]));
        assert(picked(given, order@).take(i + 1) =~= picked(given, order@).take(i as int).push(
            given[order@[i as int] as int],
        ));
    }
    assert(picked(given, order@).take(order@.len() as int) =~= picked(given, order@));
    assert(is_sorting::<Cluster>(given, order@));
    out
}

/// A harvest of all classes of the messages, sorted, is what is to be suggested.
proof fn lemma_suggests<F: Fn(usize, Signal, bool) -> u64>(
    r: Seq<ClusterView>,
    found: Seq<ClusterView>,
    order: Seq<usize>,
    classes: Seq<(Signal, Seq<char>)>,
    messages: Seq<MessageView>,
    existing: Seq<ExistingView>,
    config: ConfigView,
    score: F,
)
    requires
        harvested(found, classes, messages, existing, config, score),
        forall|class: (Signal, Seq<char>)|
            (#[trigger] members(messages, class)).len() > 0 ==> classes.contains(class),
        is_sorting::<Cluster>(found, order),
        found.len() <= usize::MAX,
        r == picked(found, order),
    ensures
        suggests(r, messages, existing, config, score),
{
    assert forall|i: int| 0 <= i < r.len() implies {
        let class = cluster_class(#[trigger] r[i]);
        &&& surfaces(class, messages, existing, config, score)
        &&& r[i] == cluster_for(class, messages, existing, config, score)
    } by {
        assert(r[i] == found[order[i] as int]);
        reveal(offered);
    }
    assert forall|class: (Signal, Seq<char>)| #[trigger]
        surfaces(class, messages, existing, config, score) implies r.contains(
        cluster_for(class, messages, existing, config, score),
    ) by {
        let c = cluster_for(class, messages, existing, config, score);
        assert(offered(class, messages, existing, config, score) == Some(c)) by {
            reveal(offered);
        }
        lemma_offered(class, messages, existing, config, score);
        assert(classes.contains(class));
        let j = classes.index_of(class);
        assert(classes[j] == class);
        assert(found.contains(c));
        let k = found.index_of(c);
        lemma_permutation_covers(order, found.len(), k as usize);
        let p = order.index_of(k as usize);
        assert(order[p] == k);
        assert(r[p] == found[k]);
    }
    assert forall|i: int, j: int| 0 <= i < j < r.len() implies suggested_before(
        #[trigger] r[i],
        #[trigger] r[j],
    ) by {
        let a = order[i] as int;
        let b = order[j] as int;
        assert(placed::<Cluster>(found, a, b));
        assert(order[i] != order[j]);
        lemma_suggested(r[i], r[j], r[i]);
        assert(r[i] == found[a] && r[j] == found[b]);
        assert(cluster_class(r[i]) != cluster_class(r[j]));
    }
}

/// Produce ranked cluster suggestions for a set of inbox messages.
pub fn suggest<F: Fn(usize, Signal, bool) -> u64>(
    messages: &[Message],
    existing: &[ExistingFolder],
    config: &Config,
    score: F,
) -> (r: Vec<Cluster>)
    requires
        is_scoring(score),
    ensures
        suggests(all_views(r@), all_views(messages@), all_views(existing@), config@, score),
{
    let buckets = group(messages);
    let ghost ms = all_views(messages@);
    let found = harvest(&buckets, existing, config, &score, Ghost(ms));
    let r = ranked(&found);
    proof {
        let given = all_views(found@);
        let order = choose|order: Seq<usize>| #[trigger]
            is_sorting::<Cluster>(given, order) && all_views(r@) == picked(given, order);
        assert(given.len() == found.len());
        let classes = bucket_classes(buckets@);
        assert forall|class: (Signal, Seq<char>)|
            (#[trigger] members(ms, class)).len() > 0 implies classes.contains(class) by {
            let j = choose|j: int|
                0 <= j < buckets@.len() && (#[trigger] buckets@[j]).class() == class;
            assert(classes[j] == class);
        }
        lemma_suggests(
            all_views(r@),
            given,
            order,
            classes,
            ms,
            all_views(existing@),
            config@,
            score,
        );
    }
    r
}

} // verus!
