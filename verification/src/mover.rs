//! The abstraction that relocates messages, plus two movers without a network:
//!
//! - [`DryRunMover`] performs nothing; it lets a dry run exercise the full engine and
//!   journal without touching mail.
//! - [`FakeMover`] is an in-memory mailbox, the model of what every mover must uphold:
//!   a move relocates a message, never duplicates or drops it.

pub mod laws;

use vstd::multiset::Multiset;
use vstd::prelude::*;

use crate::error::{told, Error};
use crate::model::{ActionView, FolderSpec, FolderSpecView, MoveAction};
use crate::number::{decimal, push_decimal};
use crate::order::{before, lemma_before_total, lemma_before_trans, str_before};
use crate::seqs::{all_views, lemma_picked_multiset, picked};
use crate::sort::{placed, sorted_order, Ranked};
use crate::text::{clone_opt, opt_text, opt_texts, str_eq, texts};
use crate::textmap::{ascending, lemma_ascending_distinct, TextMap};

verus! {

/// What happened to a single message.
#[derive(Debug, Clone, Copy, PartialEq, Eq, Structural)]
pub enum MoveOutcome {
    /// The message was relocated to its destination.
    Moved,
    /// The message was already at (or gone from) the source: nothing to do. This makes
    /// re-running a partially applied plan idempotent.
    AlreadyDone,
    /// Dry run: the move was not performed, only simulated.
    Simulated,
}

/// Relocates messages and ensures destination folders exist.
///
/// What a call may do is said by a relation between the mover before the call, the
/// argument, the mover after the call and the result. Each mover gives its own; of one that
/// gives none, nothing is known.
pub trait Mover: Sized {
    /// `ensure_folder` may turn `pre` into `post` with the result `r`.
    open spec fn folder_step(
        pre: Self,
        spec: FolderSpecView,
        post: Self,
        r: Result<(), Seq<char>>,
    ) -> bool {
        true
    }

    /// `move_message` may turn `pre` into `post` with the result `r`.
    open spec fn move_step(
        pre: Self,
        action: ActionView,
        post: Self,
        r: Result<MoveOutcome, Seq<char>>,
    ) -> bool {
        true
    }

    /// `reconcile` may turn `pre` into `post` with the result `r`.
    open spec fn reconcile_step(pre: Self, post: Self, r: Result<(), Seq<char>>) -> bool {
        true
    }

    /// Ensure a destination folder exists (idempotent).
    fn ensure_folder(&mut self, spec: &FolderSpec) -> (r: Result<(), Error>)
        ensures
            Self::folder_step(*old(self), spec@, *final(self), told(r)),
    ;

    /// Move one message from its source to its destination.
    fn move_message(&mut self, action: &MoveAction) -> (r: Result<MoveOutcome, Error>)
        ensures
            Self::move_step(*old(self), action@, *final(self), told(r)),
    ;

    /// Reconcile after all moves (e.g. run mbsync, verify UIDVALIDITY). No-op for the
    /// movers without a network.
    fn reconcile(&mut self) -> (r: Result<(), Error>)
        ensures
            Self::reconcile_step(*old(self), *final(self), told(r)),
    ;
}

/// A mover that performs no side effects.
#[derive(Debug, Clone, Copy, PartialEq, Eq, Structural)]
pub struct DryRunMover;

impl Mover for DryRunMover {
    open spec fn folder_step(
        pre: DryRunMover,
        spec: FolderSpecView,
        post: DryRunMover,
        r: Result<(), Seq<char>>,
    ) -> bool {
        r == Ok::<(), Seq<char>>(())
    }

    open spec fn move_step(
        pre: DryRunMover,
        action: ActionView,
        post: DryRunMover,
        r: Result<MoveOutcome, Seq<char>>,
    ) -> bool {
        r == Ok::<MoveOutcome, Seq<char>>(MoveOutcome::Simulated)
    }

    open spec fn reconcile_step(
        pre: DryRunMover,
        post: DryRunMover,
        r: Result<(), Seq<char>>,
    ) -> bool {
        r == Ok::<(), Seq<char>>(())
    }

    fn ensure_folder(&mut self, _spec: &FolderSpec) -> (r: Result<(), Error>) {
        Ok(())
    }

    fn move_message(&mut self, _action: &MoveAction) -> (r: Result<MoveOutcome, Error>) {
        Ok(MoveOutcome::Simulated)
    }

    fn reconcile(&mut self) -> (r: Result<(), Error>) {
        Ok(())
    }
}

// ---- the in-memory mailbox ----

/// One message of the [`FakeMover`] mailbox.
#[derive(Debug, PartialEq, Eq)]
pub struct FakeMsg {
    pub message_id: Option<String>,
    pub uid: Option<u32>,
}

/// The view of a [`FakeMsg`].
#[verifier::ext_equal]
pub ghost struct FakeMsgView {
    pub message_id: Option<Seq<char>>,
    pub uid: Option<u32>,
}

impl View for FakeMsg {
    type V = FakeMsgView;

    open spec fn view(&self) -> FakeMsgView {
        FakeMsgView { message_id: opt_text(self.message_id), uid: self.uid }
    }
}

impl FakeMsgView {
    /// This is the message that an action refers to: by Message-ID where both have one,
    /// else by UID.
    pub open spec fn matches(self, action: ActionView) -> bool {
        match (self.message_id, action.message_id) {
            (Some(a), Some(b)) => a == b,
            _ => self.uid is Some && self.uid == action.uid,
        }
    }
}

impl Clone for FakeMsg {
    fn clone(&self) -> (r: FakeMsg)
        ensures
            r@ == self@,
    {
        FakeMsg { message_id: clone_opt(&self.message_id), uid: self.uid }
    }
}

impl FakeMsg {
    /// A message with the given identity.
    pub fn new(message_id: Option<&str>, uid: Option<u32>) -> (r: FakeMsg)
        ensures
            r@ == (FakeMsgView {
                message_id: match message_id {
                    Some(s) => Some(s@),
                    None => None,
                },
                uid,
            }),
    {
        let message_id = match message_id {
            Some(s) => Some(s.to_string()),
            None => None,
        };
        FakeMsg { message_id, uid }
    }

    /// Whether this message is the one an action refers to. Prefer Message-ID identity;
    /// fall back to UID when either side has no Message-ID.
    fn matches(&self, action: &MoveAction) -> (r: bool)
        ensures
            r == self@.matches(action@),
    {
        match (&self.message_id, &action.message_id) {
            (Some(a), Some(b)) => str_eq(a, b),
            _ => match (self.uid, action.uid) {
                (Some(a), Some(b)) => a == b,
                _ => false,
            },
        }
    }
}

/// The position of the first message that an action refers to, or the length of the
/// list where there is none.
pub open spec fn first_match(list: Seq<FakeMsgView>, action: ActionView) -> int
    decreases list.len(),
{
    if list.len() == 0 || list[0].matches(action) {
        0
    } else {
        1 + first_match(list.skip(1), action)
    }
}

/// `first_match` is the least matching position.
pub proof fn lemma_first_match(list: Seq<FakeMsgView>, action: ActionView)
    ensures
        0 <= first_match(list, action) <= list.len(),
        first_match(list, action) < list.len() ==> list[first_match(list, action)].matches(action),
        forall|i: int|
            0 <= i < first_match(list, action) ==> !(#[trigger] list[i]).matches(action),
    decreases list.len(),
{
    if list.len() > 0 && !list[0].matches(action) {
        let rest = list.skip(1);
        lemma_first_match(rest, action);
        assert forall|i: int| 0 <= i < first_match(list, action) implies !(
        #[trigger] list[i]).matches(action) by {
            if i > 0 {
                assert(list[i] == rest[i - 1]);
            }
        }
    }
}

/// The Message-IDs of a list of messages, in order.
pub open spec fn ids_of(list: Seq<FakeMsgView>) -> Seq<Option<Seq<char>>> {
    Seq::new(list.len(), |i: int| list[i].message_id)
}

/// The Message-IDs of a list of messages, with multiplicity.
pub open spec fn list_ids(list: Seq<FakeMsgView>) -> Multiset<Option<Seq<char>>> {
    ids_of(list).to_multiset()
}

/// Adding one element to a part adds it to the whole, and taking it from a part takes
/// it from the whole.
pub proof fn lemma_insert_in_part<V>(a: Multiset<V>, b: Multiset<V>, v: V)
    ensures
        a.add(b).insert(v) == a.add(b.insert(v)),
        a.count(v) > 0 ==> a.remove(v).insert(v) == a,
        a.count(v) > 0 ==> a.remove(v).add(b).insert(v) == a.add(b),
        a.insert(v).add(b) == a.add(b).insert(v),
        a.insert(v).count(v) == a.count(v) + 1,
{
    broadcast use vstd::multiset::group_multiset_axioms;
    broadcast use vstd::multiset::group_multiset_properties;

    assert(a.add(b).insert(v) =~= a.add(b.insert(v)));
    assert(a.insert(v).add(b) =~= a.add(b).insert(v));
    if a.count(v) > 0 {
        assert(a.remove(v).insert(v) =~= a);
        assert(a.remove(v).add(b).insert(v) =~= a.add(b));
    }
}

/// How the Message-IDs of a list change with the list.
pub proof fn lemma_list_ids(list: Seq<FakeMsgView>, msg: FakeMsgView, p: int)
    ensures
        list_ids(Seq::empty()) == Multiset::<Option<Seq<char>>>::empty(),
        list_ids(list.push(msg)) == list_ids(list).insert(msg.message_id),
        list_ids(list).len() == list.len(),
        0 <= p < list.len() ==> list_ids(list.remove(p)) == list_ids(list).remove(
            list[p].message_id,
        ) && list_ids(list).count(list[p].message_id) > 0,
{
    broadcast use vstd::seq_lib::group_to_multiset_ensures;

    let ids = ids_of(list);
    let none = ids_of(Seq::empty());
    assert(none =~= Seq::empty());
    none.to_multiset_ensures();
    assert(none.to_multiset() =~= Multiset::empty());
    ids.to_multiset_ensures();
    assert(ids_of(list.push(msg)) =~= ids.push(msg.message_id));
    if 0 <= p < list.len() {
        assert(ids_of(list.remove(p)) =~= ids.remove(p));
        assert(ids.contains(ids[p]));
    }
}

/// The Message-IDs in all folders, with multiplicity.
pub open spec fn all_ids(folders: Map<Seq<char>, Seq<FakeMsgView>>) -> Multiset<
    Option<Seq<char>>,
>
    decreases folders.dom().len(),
{
    if folders.dom().finite() && folders.dom().len() > 0 {
        let path = folders.dom().choose();
        list_ids(folders[path]).add(all_ids(folders.remove(path)))
    } else {
        Multiset::empty()
    }
}

/// Any folder may be counted first.
pub proof fn lemma_all_ids(folders: Map<Seq<char>, Seq<FakeMsgView>>, path: Seq<char>)
    requires
        folders.dom().finite(),
        folders.contains_key(path),
    ensures
        all_ids(folders) == list_ids(folders[path]).add(all_ids(folders.remove(path))),
    decreases folders.dom().len(),
{
    assert(folders.dom().len() > 0);
    let first = folders.dom().choose();
    if first != path {
        lemma_all_ids(folders.remove(first), path);
        lemma_all_ids(folders.remove(path), first);
        assert(folders.remove(first).remove(path) =~= folders.remove(path).remove(first));
        assert(all_ids(folders) =~= list_ids(folders[path]).add(all_ids(folders.remove(path))));
    }
}

/// Replacing the messages of one folder changes the count by those messages alone.
pub proof fn lemma_all_ids_insert(
    folders: Map<Seq<char>, Seq<FakeMsgView>>,
    path: Seq<char>,
    list: Seq<FakeMsgView>,
)
    requires
        folders.dom().finite(),
    ensures
        folders.insert(path, list).dom().finite(),
        all_ids(folders.insert(path, list)) == list_ids(list).add(all_ids(folders.remove(path))),
        all_ids(folders) == list_ids(listed(folders, path)).add(all_ids(folders.remove(path))),
{
    let after = folders.insert(path, list);
    assert(after.dom() =~= folders.dom().insert(path));
    lemma_all_ids(after, path);
    assert(after.remove(path) =~= folders.remove(path));
    if folders.contains_key(path) {
        lemma_all_ids(folders, path);
    } else {
        assert(folders.remove(path) =~= folders);
        lemma_list_ids(Seq::empty(), arbitrary(), 0);
        assert(all_ids(folders) =~= list_ids(listed(folders, path)).add(
            all_ids(folders.remove(path)),
        ));
    }
}

/// The messages of a folder: none where the folder does not exist.
pub open spec fn listed(
    folders: Map<Seq<char>, Seq<FakeMsgView>>,
    path: Seq<char>,
) -> Seq<FakeMsgView> {
    if folders.contains_key(path) {
        folders[path]
    } else {
        Seq::empty()
    }
}

/// The message that an action refers to is in its source folder.
pub open spec fn has_source(
    folders: Map<Seq<char>, Seq<FakeMsgView>>,
    action: ActionView,
) -> bool {
    let src = listed(folders, action.src_folder);
    first_match(src, action) < src.len()
}

/// The folders after an action: its message has left the source and stands last in the
/// destination. The source folder is there afterwards even if it was not before.
pub open spec fn refiled(folders: Map<Seq<char>, Seq<FakeMsgView>>, action: ActionView) -> Map<
    Seq<char>,
    Seq<FakeMsgView>,
> {
    let src = listed(folders, action.src_folder);
    let p = first_match(src, action);
    if p < src.len() {
        let left = folders.insert(action.src_folder, src.remove(p));
        left.insert(action.dst_dotpath, listed(left, action.dst_dotpath).push(src[p]))
    } else {
        folders.insert(action.src_folder, src)
    }
}

/// The mailbox that a [`FakeMover`] holds.
#[verifier::ext_equal]
pub ghost struct Mailbox {
    /// The messages of each folder.
    pub folders: Map<Seq<char>, Seq<FakeMsgView>>,
    /// The folders created so far, in order.
    pub created: Seq<Seq<char>>,
    /// Moves fail once this many have succeeded.
    pub fail_after: Option<usize>,
    /// The moves that have succeeded, up to what the counter can hold.
    pub moves: nat,
    /// Whether `reconcile` has run.
    pub reconciled: bool,
}

impl Mailbox {
    /// The mailbox with a folder made sure of.
    pub open spec fn with_folder(self, path: Seq<char>) -> Mailbox {
        if self.folders.contains_key(path) {
            self
        } else {
            Mailbox {
                folders: self.folders.insert(path, Seq::empty()),
                created: self.created.push(path),
                ..self
            }
        }
    }

    /// The next move fails.
    pub open spec fn failing(self) -> bool {
        self.fail_after is Some && self.moves >= self.fail_after->0
    }

    /// The mailbox after an attempt at an action.
    pub open spec fn after_move(self, action: ActionView) -> Mailbox {
        if self.failing() {
            self
        } else if has_source(self.folders, action) {
            Mailbox {
                folders: refiled(self.folders, action),
                moves: if self.moves < usize::MAX {
                    self.moves + 1
                } else {
                    self.moves
                },
                ..self
            }
        } else {
            Mailbox { folders: refiled(self.folders, action), ..self }
        }
    }

    /// What an attempt at an action reports.
    pub open spec fn outcome(self, action: ActionView) -> Result<MoveOutcome, Seq<char>> {
        if self.failing() {
            Err("injected failure after "@ + decimal(self.fail_after->0 as nat) + " moves"@)
        } else if has_source(self.folders, action) {
            Ok(MoveOutcome::Moved)
        } else {
            Ok(MoveOutcome::AlreadyDone)
        }
    }
}

/// A move relocates a message and neither loses nor duplicates one: the Message-IDs in
/// all folders together are the same, with the same multiplicity, before and after.
pub proof fn law_move_conserves(mailbox: Mailbox, action: ActionView)
    requires
        mailbox.folders.dom().finite(),
    ensures
        mailbox.after_move(action).folders.dom().finite(),
        all_ids(mailbox.after_move(action).folders) == all_ids(mailbox.folders),
{
    let folders = mailbox.folders;
    let src = listed(folders, action.src_folder);
    let p = first_match(src, action);
    lemma_first_match(src, action);
    if !mailbox.failing() {
        if p < src.len() {
            let shorter = src.remove(p);
            lemma_all_ids_insert(folders, action.src_folder, shorter);
            let left = folders.insert(action.src_folder, shorter);
            let dst = listed(left, action.dst_dotpath);
            lemma_all_ids_insert(left, action.dst_dotpath, dst.push(src[p]));
            lemma_list_ids(src, src[p], p);
            lemma_list_ids(dst, src[p], 0);
            let id = src[p].message_id;
            lemma_insert_in_part(list_ids(src), all_ids(folders.remove(action.src_folder)), id);
            lemma_insert_in_part(list_ids(dst), all_ids(left.remove(action.dst_dotpath)), id);
        } else {
            lemma_all_ids_insert(folders, action.src_folder, src);
        }
    }
}

/// Ensuring a folder keeps the Message-IDs.
pub proof fn law_folder_conserves(mailbox: Mailbox, path: Seq<char>)
    requires
        mailbox.folders.dom().finite(),
    ensures
        mailbox.with_folder(path).folders.dom().finite(),
        all_ids(mailbox.with_folder(path).folders) == all_ids(mailbox.folders),
{
    if !mailbox.folders.contains_key(path) {
        lemma_all_ids_insert(mailbox.folders, path, Seq::empty());
    }
}

/// An in-memory mailbox: folder dotpath -> messages. Moves remove from the source and
/// append to the destination.
#[derive(Debug, Clone)]
pub struct FakeMover {
    pub folders: TextMap<Vec<FakeMsg>>,
    pub created: Vec<String>,
    /// If set, `move_message` fails once this many moves have succeeded; it simulates a
    /// crash in the middle of a run.
    pub fail_after: Option<usize>,
    /// Moves that have succeeded so far.
    pub moves_done: usize,
    pub reconciled: bool,
}

/// The messages of each folder of a map.
pub open spec fn mail_in(folders: Map<Seq<char>, Vec<FakeMsg>>) -> Map<
    Seq<char>,
    Seq<FakeMsgView>,
> {
    Map::new(|k: Seq<char>| folders.contains_key(k), |k: Seq<char>| all_views(folders[k]@))
}

impl View for FakeMover {
    type V = Mailbox;

    open spec fn view(&self) -> Mailbox {
        Mailbox {
            folders: mail_in(self.folders@),
            created: texts(self.created@),
            fail_after: self.fail_after,
            moves: self.moves_done as nat,
            reconciled: self.reconciled,
        }
    }
}

/// `a` comes strictly before `b` in the order of optional texts, absent first.
pub open spec fn id_before(a: Option<Seq<char>>, b: Option<Seq<char>>) -> bool {
    match (a, b) {
        (Some(x), Some(y)) => before(x, y),
        (None, Some(_)) => true,
        _ => false,
    }
}

impl Ranked for Option<String> {
    open spec fn ranks(a: Option<String>, b: Option<String>) -> bool {
        id_before(opt_text(a), opt_text(b))
    }

    proof fn lemma_ranks(a: Option<String>, b: Option<String>, c: Option<String>) {
        lemma_id_before(opt_text(a), opt_text(b), opt_text(c));
    }

    fn ranked_before(&self, other: &Option<String>) -> (r: bool) {
        match (self, other) {
            (Some(x), Some(y)) => str_before(x, y),
            (None, Some(_)) => true,
            _ => false,
        }
    }
}

/// The order of optional texts is a strict total order.
pub proof fn lemma_id_before(a: Option<Seq<char>>, b: Option<Seq<char>>, c: Option<Seq<char>>)
    ensures
        !id_before(a, a),
        id_before(a, b) && id_before(b, c) ==> id_before(a, c),
        id_before(a, b) ==> id_before(a, c) || id_before(c, b),
        id_before(a, b) || id_before(b, a) || a == b,
        !(id_before(a, b) && id_before(b, a)),
{
    if a is Some {
        lemma_before_total(a->0, a->0);
    }
    if a is Some && b is Some {
        lemma_before_total(a->0, b->0);
        if c is Some {
            lemma_before_total(a->0, c->0);
            lemma_before_total(b->0, c->0);
            if before(a->0, b->0) && before(b->0, c->0) {
                lemma_before_trans(a->0, b->0, c->0);
            }
            if before(a->0, b->0) && before(c->0, a->0) {
                lemma_before_trans(c->0, a->0, b->0);
            }
        }
    }
}

/// `ids` stand in ascending order, absent ones first.
pub open spec fn ids_ascend(ids: Seq<Option<Seq<char>>>) -> bool {
    forall|i: int, j: int|
        0 <= i < j < ids.len() ==> !id_before(#[trigger] ids[j], #[trigger] ids[i])
}

/// Two ascending lists with the same ids, counted with multiplicity, are the same list.
pub proof fn lemma_ids_unique(a: Seq<Option<Seq<char>>>, b: Seq<Option<Seq<char>>>)
    requires
        ids_ascend(a),
        ids_ascend(b),
        a.to_multiset() == b.to_multiset(),
    ensures
        a == b,
{
    let leq = |x: Option<Seq<char>>, y: Option<Seq<char>>| !id_before(y, x);
    assert forall|x: Option<Seq<char>>, y: Option<Seq<char>>, z: Option<Seq<char>>|
        #![trigger leq(x, y), leq(y, z)]
        leq(x, y) && leq(y, z) implies leq(x, z) by {
        lemma_id_before(z, x, y);
    }
    assert forall|x: Option<Seq<char>>, y: Option<Seq<char>>|
        #![trigger leq(x, y), leq(y, x)]
        leq(x, y) && leq(y, x) implies x == y by {
        lemma_id_before(x, y, x);
    }
    assert forall|x: Option<Seq<char>>, y: Option<Seq<char>>|
        #![trigger leq(x, y), leq(y, x)]
        leq(x, y) || leq(y, x) by {
        lemma_id_before(x, y, x);
    }
    assert forall|x: Option<Seq<char>>| #[trigger] leq(x, x) by {
        lemma_id_before(x, x, x);
    }
    assert(vstd::relations::total_ordering(leq));
    vstd::seq_lib::lemma_sorted_unique(a, b, leq);
}

/// The first `n` keys of a map with messages, without the others.
spec fn first_keys(
    folders: Map<Seq<char>, Seq<FakeMsgView>>,
    keys: Seq<Seq<char>>,
    n: int,
) -> Map<Seq<char>, Seq<FakeMsgView>> {
    folders.restrict(keys.take(n).to_set())
}

/// Counting one key more.
proof fn lemma_first_keys(
    folders: Map<Seq<char>, Seq<FakeMsgView>>,
    keys: Seq<Seq<char>>,
    n: int,
)
    requires
        ascending(keys),
        folders.dom() == keys.to_set(),
        0 <= n <= keys.len(),
    ensures
        first_keys(folders, keys, n).dom().finite(),
        n == 0 ==> all_ids(first_keys(folders, keys, n)) == Multiset::<Option<Seq<char>>>::empty(),
        n == keys.len() ==> first_keys(folders, keys, n) == folders,
        n < keys.len() ==> all_ids(first_keys(folders, keys, n + 1)) == list_ids(
            folders[keys[n]],
        ).add(all_ids(first_keys(folders, keys, n))),
{
    lemma_ascending_distinct(keys);
    broadcast use vstd::seq_lib::group_seq_properties;

    let part = first_keys(folders, keys, n);
    assert(part.dom() =~= keys.take(n).to_set().intersect(folders.dom()));
    if n == 0 {
        assert(part.dom() =~= Set::empty());
    }
    if n == keys.len() {
        assert(keys.take(n) =~= keys);
        assert(part =~= folders);
    }
    if n < keys.len() {
        let next = first_keys(folders, keys, n + 1);
        let k = keys[n];
        assert(keys.take(n + 1) =~= keys.take(n).push(k));
        assert(keys.take(n + 1).to_set() =~= keys.take(n).to_set().insert(k));
        assert(keys.to_set().contains(k));
        assert(next.dom() =~= part.dom().insert(k));
        assert(!keys.take(n).contains(k)) by {
            if keys.take(n).contains(k) {
                let i = keys.take(n).index_of(k);
                assert(keys[i] == k);
            }
        }
        assert(next.remove(k) =~= part);
        lemma_all_ids(next, k);
    }
}

impl FakeMover {
    /// A mover over the given mailbox.
    pub fn new(folders: TextMap<Vec<FakeMsg>>) -> (r: FakeMover)
        ensures
            r@ == (Mailbox {
                folders: mail_in(folders@),
                created: Seq::empty(),
                fail_after: None,
                moves: 0,
                reconciled: false,
            }),
            r.folders == folders,
    {
        let r = FakeMover {
            folders,
            created: Vec::new(),
            fail_after: None,
            moves_done: 0,
            reconciled: false,
        };
        assert(texts(r.created@) =~= Seq::empty());
        r
    }

    /// Fail after `n` successful moves (to simulate a crash).
    pub fn failing_after(self, n: usize) -> (r: FakeMover)
        ensures
            r@ == (Mailbox { fail_after: Some(n), ..self@ }),
    {
        FakeMover {
            folders: self.folders,
            created: self.created,
            fail_after: Some(n),
            moves_done: self.moves_done,
            reconciled: self.reconciled,
        }
    }

    /// The multiset of Message-IDs across the whole mailbox, sorted, for conservation
    /// comparisons before and after an apply.
    pub fn message_id_multiset(&self) -> (r: Vec<Option<String>>)
        ensures
            opt_texts(r@).to_multiset() == all_ids(self@.folders),
            ids_ascend(opt_texts(r@)),
            self@.folders.dom().finite(),
    {
        broadcast use vstd::seq_lib::group_to_multiset_ensures;

        let ghost folders = self@.folders;
        let ghost keys = self.folders.keys();
        let n: usize = self.folders.len();
        assert(folders.dom() =~= self.folders@.dom());
        let mut ids: Vec<Option<String>> = Vec::new();
        proof {
            lemma_first_keys(folders, keys, 0);
            assert(opt_texts(ids@) =~= Seq::empty());
            assert(opt_texts(ids@).to_multiset() =~= Multiset::empty());
        }
        for i in 0..n
            invariant
                n == keys.len(),
                keys == self.folders.keys(),
                ascending(keys),
                folders == self@.folders,
                folders.dom() == keys.to_set(),
                opt_texts(ids@).to_multiset() == all_ids(first_keys(folders, keys, i as int)),
        {
            let msgs = self.folders.value_at(i);
            let ghost list = all_views(msgs@);
            let ghost start = opt_texts(ids@);
            assert(list == folders[keys[i as int]]);
            proof {
                lemma_list_ids(list, arbitrary(), 0);
                assert(list.take(0) =~= Seq::empty());
                assert(start.to_multiset() =~= start.to_multiset().add(list_ids(list.take(0))));
            }
            for j in 0..msgs.len()
                invariant
                    list == all_views(msgs@),
                    opt_texts(ids@).to_multiset() == start.to_multiset().add(
                        list_ids(list.take(j as int)),
                    ),
            {
                let ghost was = opt_texts(ids@);
                ids.push(clone_opt(&msgs[j].message_id));
                proof {
                    let id = list[j as int].message_id;
                    assert(opt_texts(ids@) =~= was.push(id));
                    was.to_multiset_ensures();
                    assert(was.push(id).to_multiset() =~= was.to_multiset().insert(id));
                    lemma_list_ids(list.take(j as int), list[j as int], 0);
                    assert(list.take(j + 1) =~= list.take(j as int).push(list[j as int]));
                    lemma_insert_in_part(
                        start.to_multiset(),
                        list_ids(list.take(j as int)),
                        id,
                    );
                }
            }
            proof {
                assert(list.take(list.len() as int) =~= list);
                lemma_first_keys(folders, keys, i as int);
                assert(opt_texts(ids@).to_multiset() =~= all_ids(
                    first_keys(folders, keys, i + 1),
                ));
            }
        }
        proof {
            lemma_first_keys(folders, keys, n as int);
        }
        let order = sorted_order(&ids);
        let ghost given = opt_texts(ids@);
        let mut out: Vec<Option<String>> = Vec::new();
        for i in 0..order.len()
            invariant
                given == opt_texts(ids@),
                order@.len() == given.len(),
                forall|k: int| 0 <= k < order@.len() ==> (#[trigger] order@[k]) < given.len(),
                opt_texts(out@) == picked(given, order@).take(i as int),
        {
            let ghost was = opt_texts(out@);
            out.push(clone_opt(&ids[order[i]]));
            assert(opt_texts(out@) =~= was.push(given[order@[i as int] as int]));
            assert(picked(given, order@).take(i + 1) =~= picked(given, order@).take(i as int).push(
                given[order@[i as int] as int],
            ));
        }
        proof {
            assert(all_views(ids@) =~= ids@);
            assert(picked(given, order@).take(order@.len() as int) =~= picked(given, order@));
            lemma_picked_multiset(given, order@);
            let r = opt_texts(out@);
            assert forall|i: int, j: int| 0 <= i < j < r.len() implies !id_before(
                #[trigger] r[j],
                #[trigger] r[i],
            ) by {
                let a = order@[i] as int;
                let b = order@[j] as int;
                assert(placed::<Option<String>>(all_views(ids@), a, b));
                lemma_id_before(r[i], r[j], r[i]);
                assert(opt_text(ids@[a]) == r[i]);
                assert(opt_text(ids@[b]) == r[j]);
            }
        }
        out
    }

    /// Total messages across all folders, at most what a `usize` can hold.
    pub fn total_messages(&self) -> (r: usize)
        ensures
            r == if all_ids(self@.folders).len() <= usize::MAX {
                all_ids(self@.folders).len() as int
            } else {
                usize::MAX as int
            },
    {
        let ghost folders = self@.folders;
        let ghost keys = self.folders.keys();
        let n: usize = self.folders.len();
        assert(folders.dom() =~= self.folders@.dom());
        let mut total: usize = 0;
        proof {
            lemma_first_keys(folders, keys, 0);
        }
        for i in 0..n
            invariant
                n == keys.len(),
                keys == self.folders.keys(),
                ascending(keys),
                folders == self@.folders,
                folders.dom() == keys.to_set(),
                total == if all_ids(first_keys(folders, keys, i as int)).len() <= usize::MAX {
                    all_ids(first_keys(folders, keys, i as int)).len() as int
                } else {
                    usize::MAX as int
                },
        {
            let msgs = self.folders.value_at(i);
            let ghost list = folders[keys[i as int]];
            proof {
                lemma_first_keys(folders, keys, i as int);
                lemma_list_ids(list, arbitrary(), 0);
            }
            total = total.saturating_add(msgs.len());
        }
        proof {
            lemma_first_keys(folders, keys, n as int);
        }
        total
    }
}

impl Mover for FakeMover {
    open spec fn folder_step(
        pre: FakeMover,
        spec: FolderSpecView,
        post: FakeMover,
        r: Result<(), Seq<char>>,
    ) -> bool {
        post@ == pre@.with_folder(spec.dotpath) && r == Ok::<(), Seq<char>>(())
    }

    open spec fn move_step(
        pre: FakeMover,
        action: ActionView,
        post: FakeMover,
        r: Result<MoveOutcome, Seq<char>>,
    ) -> bool {
        post@ == pre@.after_move(action) && r == pre@.outcome(action)
    }

    open spec fn reconcile_step(
        pre: FakeMover,
        post: FakeMover,
        r: Result<(), Seq<char>>,
    ) -> bool {
        post@ == (Mailbox { reconciled: true, ..pre@ }) && r == Ok::<(), Seq<char>>(())
    }

    fn ensure_folder(&mut self, spec: &FolderSpec) -> (r: Result<(), Error>) {
        if !self.folders.contains_key(&spec.dotpath) {
            self.folders.insert(spec.dotpath.clone(), Vec::new());
            self.created.push(spec.dotpath.clone());
            proof {
                let pre = old(self)@;
                assert(all_views(Seq::<FakeMsg>::empty()) =~= Seq::empty());
                assert(self@.folders =~= pre.folders.insert(spec.dotpath@, Seq::empty()));
                assert(self@.created =~= pre.created.push(spec.dotpath@));
            }
        }
        Ok(())
    }

    fn move_message(&mut self, action: &MoveAction) -> (r: Result<MoveOutcome, Error>) {
        if let Some(fa) = self.fail_after {
            if self.moves_done >= fa {
                let mut message = String::new();
                message.push_str("injected failure after ");
                push_decimal(&mut message, fa as u64);
                message.push_str(" moves");
                assert(message@ =~= "injected failure after "@ + decimal(fa as nat) + " moves"@);
                return Err(Error::new(message));
            }
        }
        let ghost pre = old(self)@;
        let ghost list = listed(pre.folders, action.src_folder@);
        let mut src: Vec<FakeMsg> = match self.folders.remove(&action.src_folder) {
            Some(v) => v,
            None => Vec::new(),
        };
        assert(all_views(src@) =~= list);
        let mut pos: usize = 0;
        proof {
            assert(list.skip(0) =~= list);
        }
        while pos < src.len() && !src[pos].matches(action)
            invariant
                all_views(src@) == list,
                pos <= list.len(),
                first_match(list, action@) == pos + first_match(list.skip(pos as int), action@),
            decreases src@.len() - pos,
        {
            proof {
                assert(list[pos as int] == src@[pos as int]@);
                assert(list.skip(pos as int).skip(1) =~= list.skip(pos + 1));
            }
            pos += 1;
        }
        assert(first_match(list, action@) == pos) by {
            if pos < list.len() {
                assert(list[pos as int] == src@[pos as int]@);
            }
        }
        if pos == src.len() {
            self.folders.insert(action.src_folder.clone(), src);
            assert(self@.folders =~= pre.folders.insert(action.src_folder@, list));
            return Ok(MoveOutcome::AlreadyDone);
        }
        let msg = src.remove(pos);
        assert(all_views(src@) =~= list.remove(pos as int));
        self.folders.insert(action.src_folder.clone(), src);
        let ghost left = pre.folders.insert(action.src_folder@, list.remove(pos as int));
        assert(self@.folders =~= left);
        let mut dst: Vec<FakeMsg> = match self.folders.remove(&action.dst_dotpath) {
            Some(v) => v,
            None => Vec::new(),
        };
        let ghost dst_list = listed(left, action.dst_dotpath@);
        assert(all_views(dst@) =~= dst_list);
        dst.push(msg);
        assert(all_views(dst@) =~= dst_list.push(list[pos as int]));
        self.folders.insert(action.dst_dotpath.clone(), dst);
        assert(self@.folders =~= left.insert(
            action.dst_dotpath@,
            dst_list.push(list[pos as int]),
        ));
        self.moves_done = self.moves_done.saturating_add(1);
        Ok(MoveOutcome::Moved)
    }

    fn reconcile(&mut self) -> (r: Result<(), Error>) {
        self.reconciled = true;
        Ok(())
    }
}

} // verus!
