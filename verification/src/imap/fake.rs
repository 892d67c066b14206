//! An in-memory IMAP server for hermetic tests of the move logic.

use std::collections::BTreeSet;

use vstd::prelude::*;
use vstd::std_specs::btree::spec_btree_keys_iter;
use vstd::std_specs::iter::IteratorSpec;

use crate::error::{told, Error};
use crate::imap::ImapOps;
use crate::number::{decimal, push_decimal};
use crate::seqs::{all_views, is_permutation, lemma_permutation_covers};
use crate::sort::{placed, sorted_order, Ranked};
use crate::text::{opt_text, texts};
use crate::textmap::{lemma_ascending_distinct, TextMap};

verus! {

impl Ranked for u32 {
    open spec fn ranks(a: u32, b: u32) -> bool {
        a < b
    }

    proof fn lemma_ranks(a: u32, b: u32, c: u32) {
    }

    fn ranked_before(&self, other: &u32) -> (r: bool) {
        *self < *other
    }
}

/// The numbers stand in strictly ascending order.
pub open spec fn rising(s: Seq<u32>) -> bool {
    forall|i: int, j: int| 0 <= i < j < s.len() ==> s[i] < s[j]
}

/// The members of a set of numbers, ascending.
fn members(set: &BTreeSet<u32>) -> (r: Vec<u32>)
    ensures
        rising(r@),
        r@.to_set() == set@,
{
    broadcast use vstd::std_specs::btree::group_btree_axioms;

    let mut all: Vec<u32> = Vec::new();
    let ghost keys = spec_btree_keys_iter(set).remaining().unref();
    for x in it: set.iter()
        invariant
            keys == it.seq().unref(),
            all@ == keys.take(it.index()),
    {
        all.push(*x);
        assert(keys.take(it.index() + 1) =~= keys.take(it.index()).push(*x));
    }
    assert(all@ =~= keys);
    let order = sorted_order(&all);
    let ghost given = all@;
    assert(all_views(given) =~= given);
    let mut r: Vec<u32> = Vec::new();
    for i in 0..order.len()
        invariant
            all@ == given,
            is_permutation(order@, given.len()),
            r@.len() == i,
            forall|j: int| 0 <= j < i ==> (#[trigger] r@[j]) == given[order@[j] as int],
    {
        r.push(all[order[i]]);
    }
    proof {
        assert forall|i: int, j: int| 0 <= i < j < r@.len() implies r@[i] < r@[j] by {
            assert(placed::<u32>(all_views(given), order@[i] as int, order@[j] as int));
            assert(order@[i] != order@[j]);
            assert(given[order@[i] as int] != given[order@[j] as int]);
        }
        assert forall|x: u32| r@.to_set().contains(x) <==> given.to_set().contains(x) by {
            if r@.contains(x) {
                let i = r@.index_of(x);
                assert(given[order@[i] as int] == x);
            }
            if given.contains(x) {
                let k = given.index_of(x);
                lemma_permutation_covers(order@, given.len(), k as usize);
                let i = order@.index_of(k as usize);
                assert(r@[i] == x);
            }
        }
        assert(r@.to_set() =~= set@);
    }
    r
}

/// The set of some numbers.
fn to_set(numbers: &Vec<u32>) -> (r: BTreeSet<u32>)
    ensures
        r@ == numbers@.to_set(),
{
    broadcast use vstd::std_specs::btree::group_btree_axioms;
    broadcast use vstd::seq_lib::group_seq_properties;

    let mut r: BTreeSet<u32> = BTreeSet::new();
    assert(numbers@.take(0).to_set() =~= Set::empty());
    for i in 0..numbers.len()
        invariant
            r@ == numbers@.take(i as int).to_set(),
    {
        broadcast use vstd::std_specs::btree::group_btree_axioms;
        broadcast use vstd::seq_lib::group_seq_properties;

        r.insert(numbers[i]);
        assert(numbers@.take(i + 1) =~= numbers@.take(i as int).push(numbers@[i as int]));
    }
    assert(numbers@.take(numbers@.len() as int) =~= numbers@);
    r
}

// ---- the server ----

/// The state of the server.
#[verifier::ext_equal]
pub ghost struct Server {
    /// The UIDs present in each mailbox.
    pub mailboxes: Map<Seq<char>, Set<u32>>,
    /// The UIDs marked as deleted in each mailbox.
    pub deleted: Map<Seq<char>, Set<u32>>,
    pub supports_move: bool,
    pub delimiter: char,
    pub created: Seq<Seq<char>>,
    pub op_log: Seq<Seq<char>>,
    pub selected: Option<Seq<char>>,
    /// The UID that the next message gets.
    pub next_uid: u32,
}

/// The UIDs under a name: none where the name is not there.
pub open spec fn held(m: Map<Seq<char>, Set<u32>>, name: Seq<char>) -> Set<u32> {
    if m.contains_key(name) {
        m[name]
    } else {
        Set::empty()
    }
}

/// What an operation on a selected mailbox says where none is selected.
pub open spec fn none_selected() -> Seq<char> {
    "no mailbox selected"@
}

impl Server {
    /// The server with one line more in its log.
    pub open spec fn logged(self, line: Seq<char>) -> Server {
        Server { op_log: self.op_log.push(line), ..self }
    }

    /// The mailbox is there afterwards.
    pub open spec fn create(self, name: Seq<char>) -> Server {
        Server {
            mailboxes: self.mailboxes.insert(name, held(self.mailboxes, name)),
            created: self.created.push(name),
            ..self.logged("CREATE "@ + name)
        }
    }

    /// A mailbox that is there gets selected.
    pub open spec fn select(self, name: Seq<char>) -> (Server, Result<(), Seq<char>>) {
        if self.mailboxes.contains_key(name) {
            (Server { selected: Some(name), ..self.logged("SELECT "@ + name) }, Ok(()))
        } else {
            (self, Err("SELECT of nonexistent mailbox "@ + name))
        }
    }

    /// Whether the UID is in the selected mailbox.
    pub open spec fn has_uid(self, uid: u32) -> Result<bool, Seq<char>> {
        match self.selected {
            Some(sel) => Ok(held(self.mailboxes, sel).contains(uid)),
            None => Err(none_selected()),
        }
    }

    /// The server with a fresh message in `dst`. The server assigns the next UID.
    pub open spec fn delivered(self, dst: Seq<char>) -> Server {
        Server {
            mailboxes: self.mailboxes.insert(
                dst,
                held(self.mailboxes, dst).insert(self.next_uid),
            ),
            next_uid: (self.next_uid + 1) as u32,
            ..self
        }
    }

    /// The message leaves the selected mailbox and arrives in `dst` under a fresh UID. A
    /// server without a UID left refuses and changes nothing but its log.
    pub open spec fn move_uid(self, uid: u32, dst: Seq<char>) -> (Server, Result<(), Seq<char>>) {
        match self.selected {
            None => (self, Err(none_selected())),
            Some(sel) => {
                let told = self.logged("UID MOVE "@ + decimal(uid as nat) + " "@ + dst);
                if !held(self.mailboxes, sel).contains(uid) {
                    (
                        told,
                        Err("UID MOVE of absent uid "@ + decimal(uid as nat) + " from "@ + sel),
                    )
                } else if self.next_uid == u32::MAX {
                    (told, Err("no UID left"@))
                } else {
                    let gone = Server {
                        mailboxes: self.mailboxes.insert(sel, self.mailboxes[sel].remove(uid)),
                        ..told
                    };
                    (gone.delivered(dst), Ok(()))
                }
            },
        }
    }

    /// A copy arrives in `dst` under a fresh UID. A server without a UID left refuses and
    /// changes nothing but its log.
    pub open spec fn copy_uid(self, uid: u32, dst: Seq<char>) -> (Server, Result<(), Seq<char>>) {
        match self.selected {
            None => (self, Err(none_selected())),
            Some(sel) => {
                let told = self.logged("UID COPY "@ + decimal(uid as nat) + " "@ + dst);
                if !held(self.mailboxes, sel).contains(uid) {
                    (
                        told,
                        Err("UID COPY of absent uid "@ + decimal(uid as nat) + " from "@ + sel),
                    )
                } else if self.next_uid == u32::MAX {
                    (told, Err("no UID left"@))
                } else {
                    (told.delivered(dst), Ok(()))
                }
            },
        }
    }

    /// The UID is marked as deleted in the selected mailbox.
    pub open spec fn mark_deleted(self, uid: u32) -> (Server, Result<(), Seq<char>>) {
        match self.selected {
            None => (self, Err(none_selected())),
            Some(sel) => {
                let told = self.logged("STORE "@ + decimal(uid as nat) + " +FLAGS \\Deleted"@);
                (
                    Server {
                        deleted: self.deleted.insert(sel, held(self.deleted, sel).insert(uid)),
                        ..told
                    },
                    Ok(()),
                )
            },
        }
    }

    /// A UID marked as deleted leaves the selected mailbox, with its mark.
    pub open spec fn expunge(self, uid: u32) -> (Server, Result<(), Seq<char>>) {
        match self.selected {
            None => (self, Err(none_selected())),
            Some(sel) => {
                let told = self.logged("UID EXPUNGE "@ + decimal(uid as nat));
                if !held(self.deleted, sel).contains(uid) {
                    (
                        told,
                        Err(
                            "UID EXPUNGE of uid "@ + decimal(uid as nat)
                                + " not marked \\Deleted"@,
                        ),
                    )
                } else {
                    (
                        Server {
                            mailboxes: if self.mailboxes.contains_key(sel) {
                                self.mailboxes.insert(sel, self.mailboxes[sel].remove(uid))
                            } else {
                                self.mailboxes
                            },
                            deleted: self.deleted.insert(sel, self.deleted[sel].remove(uid)),
                            ..told
                        },
                        Ok(()),
                    )
                }
            },
        }
    }
}

/// A fake IMAP server: mailbox name -> set of present UIDs, plus per-mailbox `\Deleted`
/// marks. Records an operation log for assertions.
#[derive(Debug, Clone)]
pub struct FakeImapOps {
    pub mailboxes: TextMap<BTreeSet<u32>>,
    pub deleted: TextMap<BTreeSet<u32>>,
    pub supports_move: bool,
    pub delimiter: char,
    pub created: Vec<String>,
    pub op_log: Vec<String>,
    pub selected: Option<String>,
    pub next_uid: u32,
}

/// The sets under each name of a map.
pub open spec fn sets_in(m: Map<Seq<char>, BTreeSet<u32>>) -> Map<Seq<char>, Set<u32>> {
    Map::new(|k: Seq<char>| m.contains_key(k), |k: Seq<char>| m[k]@)
}

impl View for FakeImapOps {
    type V = Server;

    open spec fn view(&self) -> Server {
        Server {
            mailboxes: sets_in(self.mailboxes@),
            deleted: sets_in(self.deleted@),
            supports_move: self.supports_move,
            delimiter: self.delimiter,
            created: texts(self.created@),
            op_log: texts(self.op_log@),
            selected: opt_text(self.selected),
            next_uid: self.next_uid,
        }
    }
}

/// No UID in any of the lists is greater than `max`.
pub open spec fn bounded(m: Map<Seq<char>, Vec<u32>>, max: u32) -> bool {
    forall|k: Seq<char>, i: int|
        m.contains_key(k) && 0 <= i < m[k]@.len() ==> #[trigger] m[k]@[i] <= max
}

/// `max` is the greatest UID in the lists, or zero where there is none.
pub open spec fn is_greatest(m: Map<Seq<char>, Vec<u32>>, max: u32) -> bool {
    &&& bounded(m, max)
    &&& max == 0 || exists|k: Seq<char>, i: int|
        m.contains_key(k) && 0 <= i < m[k]@.len() && #[trigger] m[k]@[i] == max
}

impl FakeImapOps {
    /// Build a server from an initial `mailbox -> uids` map. Fresh UIDs start a thousand
    /// above the greatest one in use.
    pub fn new(mailboxes: TextMap<Vec<u32>>, supports_move: bool) -> (r: FakeImapOps)
        requires
            bounded(mailboxes@, (u32::MAX - 1000) as u32),
        ensures
            r@.mailboxes.dom() == mailboxes@.dom(),
            forall|k: Seq<char>| #[trigger]
                mailboxes@.contains_key(k) ==> r@.mailboxes[k] == mailboxes@[k]@.to_set(),
            r@.next_uid >= 1000,
            is_greatest(mailboxes@, (r@.next_uid - 1000) as u32),
            r@ == (Server {
                mailboxes: r@.mailboxes,
                deleted: Map::empty(),
                supports_move,
                delimiter: '.',
                created: Seq::empty(),
                op_log: Seq::empty(),
                selected: None,
                next_uid: r@.next_uid,
            }),
    {
        broadcast use vstd::seq_lib::group_seq_properties;

        let n: usize = mailboxes.len();
        let ghost keys = mailboxes.keys();
        let mut sets: TextMap<BTreeSet<u32>> = TextMap::new();
        let mut max: u32 = 0;
        proof {
            lemma_ascending_distinct(keys);
            assert(keys.take(0).to_set() =~= Set::empty());
            assert(sets@.dom() =~= Set::empty());
        }
        for i in 0..n
            invariant
                n == keys.len(),
                keys == mailboxes.keys(),
                keys.no_duplicates(),
                mailboxes@.dom() == keys.to_set(),
                bounded(mailboxes@, (u32::MAX - 1000) as u32),
                max <= u32::MAX - 1000,
                sets@.dom() == keys.take(i as int).to_set(),
                forall|j: int|
                    0 <= j < i ==> sets@[#[trigger] keys[j]]@ == mailboxes@[keys[j]]@.to_set(),
                forall|j: int, k: int|
                    0 <= j < i && 0 <= k < mailboxes@[keys[j]]@.len() ==> #[trigger] mailboxes@[
                        keys[j]
                    ]@[k] <= max,
                max == 0 || exists|k: Seq<char>, j: int|
                    mailboxes@.contains_key(k) && 0 <= j < mailboxes@[k]@.len()
                        && #[trigger] mailboxes@[k]@[j] == max,
        {
            broadcast use vstd::seq_lib::group_seq_properties;

            let ghost key = keys[i as int];
            let uids = mailboxes.value_at(i);
            let ghost before = max;
            for j in 0..uids.len()
                invariant
                    *uids == mailboxes@[key],
                    mailboxes@.contains_key(key),
                    bounded(mailboxes@, (u32::MAX - 1000) as u32),
                    before <= max <= u32::MAX - 1000,
                    forall|k: int| 0 <= k < j ==> (#[trigger] mailboxes@[key]@[k]) <= max,
                    max == before || exists|k: Seq<char>, l: int|
                        mailboxes@.contains_key(k) && 0 <= l < mailboxes@[k]@.len()
                            && #[trigger] mailboxes@[k]@[l] == max,
            {
                assert(mailboxes@[key]@[j as int] == uids@[j as int]);
                if uids[j] > max {
                    max = uids[j];
                }
            }
            let ghost old_sets = sets@;
            let set = to_set(uids);
            sets.insert(mailboxes.key_at(i).clone(), set);
            proof {
                assert(keys.take(i + 1) =~= keys.take(i as int).push(key));
                assert(sets@.dom() =~= old_sets.dom().insert(key));
                assert forall|j: int| 0 <= j < i + 1 implies sets@[#[trigger] keys[j]]@
                    == mailboxes@[keys[j]]@.to_set() by {
                    if j < i {
                        assert(keys[j] != key);
                    }
                }
            }
        }
        proof {
            assert(keys.take(n as int) =~= keys);
            assert(bounded(mailboxes@, max)) by {
                assert forall|k: Seq<char>, i: int|
                    mailboxes@.contains_key(k) && 0 <= i < mailboxes@[k]@.len() implies #[trigger] mailboxes@[k]@[i]
                    <= max by {
                    assert(keys.contains(k));
                    let j = keys.index_of(k);
                    assert(keys[j] == k);
                }
            }
        }
        let r = FakeImapOps {
            mailboxes: sets,
            deleted: TextMap::new(),
            supports_move,
            delimiter: '.',
            created: Vec::new(),
            op_log: Vec::new(),
            selected: None,
            next_uid: max + 1000,
        };
        proof {
            assert(r@.mailboxes.dom() =~= mailboxes@.dom());
            assert forall|k: Seq<char>| #[trigger] mailboxes@.contains_key(k) implies r@.mailboxes[k]
                == mailboxes@[k]@.to_set() by {
                assert(keys.contains(k));
                let j = keys.index_of(k);
                assert(keys[j] == k);
            }
            assert(r@.deleted =~= Map::empty());
            assert(r@.created =~= Seq::empty());
            assert(r@.op_log =~= Seq::empty());
        }
        r
    }

    /// The selected mailbox.
    fn sel(&self) -> (r: Result<String, Error>)
        ensures
            match r {
                Ok(s) => self@.selected == Some(s@),
                Err(e) => self@.selected is None && e@ == none_selected(),
            },
    {
        match &self.selected {
            Some(s) => Ok(s.clone()),
            None => Err(Error::new("no mailbox selected".to_string())),
        }
    }

    /// UIDs currently in a mailbox, ascending, for assertions.
    pub fn uids(&self, mailbox: &str) -> (r: Vec<u32>)
        ensures
            rising(r@),
            r@.to_set() == held(self@.mailboxes, mailbox@),
    {
        match self.mailboxes.get(mailbox) {
            Some(s) => members(s),
            None => {
                let r: Vec<u32> = Vec::new();
                assert(r@.to_set() =~= Set::empty());
                r
            },
        }
    }

    /// Append a line to the log.
    fn log(&mut self, line: String)
        ensures
            final(self)@ == old(self)@.logged(line@),
            final(self).selected == old(self).selected,
            final(self).mailboxes == old(self).mailboxes,
            final(self).deleted == old(self).deleted,
    {
        self.op_log.push(line);
        assert(self@.op_log =~= old(self)@.op_log.push(line@));
    }

    /// Whether a mailbox holds a UID.
    fn holds(&self, mailbox: &str, uid: u32) -> (r: bool)
        ensures
            r == held(self@.mailboxes, mailbox@).contains(uid),
    {
        broadcast use vstd::std_specs::btree::group_btree_axioms;

        match self.mailboxes.get(mailbox) {
            Some(s) => s.contains(&uid),
            None => false,
        }
    }

    /// A fresh message arrives in `dst`.
    fn deliver(&mut self, dst: &str)
        requires
            old(self)@.next_uid < u32::MAX,
        ensures
            final(self)@ == old(self)@.delivered(dst@),
    {
        broadcast use vstd::std_specs::btree::group_btree_axioms;

        let ghost pre = self@;
        let fresh: u32 = self.next_uid;
        self.next_uid = fresh + 1;
        let mut set: BTreeSet<u32> = match self.mailboxes.remove(dst) {
            Some(s) => s,
            None => BTreeSet::new(),
        };
        assert(set@ =~= held(pre.mailboxes, dst@));
        set.insert(fresh);
        self.mailboxes.insert(dst.to_string(), set);
        assert(self@.mailboxes =~= pre.delivered(dst@).mailboxes);
    }

    /// A UID leaves a mailbox, if the mailbox is there.
    fn discard(&mut self, mailbox: &str, uid: u32)
        ensures
            final(self)@ == (Server {
                mailboxes: if old(self)@.mailboxes.contains_key(mailbox@) {
                    old(self)@.mailboxes.insert(
                        mailbox@,
                        old(self)@.mailboxes[mailbox@].remove(uid),
                    )
                } else {
                    old(self)@.mailboxes
                },
                ..old(self)@
            }),
            final(self).selected == old(self).selected,
            final(self).deleted == old(self).deleted,
    {
        broadcast use vstd::std_specs::btree::group_btree_axioms;

        let ghost pre = self@;
        match self.mailboxes.remove(mailbox) {
            Some(s) => {
                let mut set = s;
                set.remove(&uid);
                self.mailboxes.insert(mailbox.to_string(), set);
                assert(self@.mailboxes =~= pre.mailboxes.insert(
                    mailbox@,
                    pre.mailboxes[mailbox@].remove(uid),
                ));
            },
            None => {
                assert(self@.mailboxes =~= pre.mailboxes);
            },
        }
    }
}

/// `prefix`, a number, a space and a name.
fn line_for(prefix: &str, uid: u32, dst: &str) -> (r: String)
    ensures
        r@ == prefix@ + decimal(uid as nat) + " "@ + dst@,
{
    let mut line = prefix.to_string();
    push_decimal(&mut line, uid as u64);
    line.push_str(" ");
    line.push_str(dst);
    line
}

/// `prefix`, a number, and `suffix`.
fn line_about(prefix: &str, uid: u32, suffix: &str) -> (r: String)
    ensures
        r@ == prefix@ + decimal(uid as nat) + suffix@,
{
    let mut line = prefix.to_string();
    push_decimal(&mut line, uid as u64);
    line.push_str(suffix);
    line
}

impl ImapOps for FakeImapOps {
    open spec fn move_told(&self, r: bool) -> bool {
        r == self@.supports_move
    }

    open spec fn create_step(
        pre: FakeImapOps,
        name: Seq<char>,
        post: FakeImapOps,
        r: Result<(), Seq<char>>,
    ) -> bool {
        post@ == pre@.create(name) && r == Ok::<(), Seq<char>>(())
    }

    open spec fn select_step(
        pre: FakeImapOps,
        mailbox: Seq<char>,
        post: FakeImapOps,
        r: Result<(), Seq<char>>,
    ) -> bool {
        (post@, r) == pre@.select(mailbox)
    }

    open spec fn exists_step(
        pre: FakeImapOps,
        uid: u32,
        post: FakeImapOps,
        r: Result<bool, Seq<char>>,
    ) -> bool {
        post == pre && r == pre@.has_uid(uid)
    }

    open spec fn uid_move_step(
        pre: FakeImapOps,
        uid: u32,
        dst: Seq<char>,
        post: FakeImapOps,
        r: Result<(), Seq<char>>,
    ) -> bool {
        (post@, r) == pre@.move_uid(uid, dst)
    }

    open spec fn copy_step(
        pre: FakeImapOps,
        uid: u32,
        dst: Seq<char>,
        post: FakeImapOps,
        r: Result<(), Seq<char>>,
    ) -> bool {
        (post@, r) == pre@.copy_uid(uid, dst)
    }

    open spec fn delete_step(
        pre: FakeImapOps,
        uid: u32,
        post: FakeImapOps,
        r: Result<(), Seq<char>>,
    ) -> bool {
        (post@, r) == pre@.mark_deleted(uid)
    }

    open spec fn expunge_step(
        pre: FakeImapOps,
        uid: u32,
        post: FakeImapOps,
        r: Result<(), Seq<char>>,
    ) -> bool {
        (post@, r) == pre@.expunge(uid)
    }

    fn has_move(&self) -> (r: bool) {
        self.supports_move
    }

    fn create_mailbox(&mut self, name: &str) -> (r: Result<(), Error>) {
        let ghost pre = self@;
        let mut line = "CREATE ".to_string();
        line.push_str(name);
        self.log(line);
        if !self.mailboxes.contains_key(name) {
            self.mailboxes.insert(name.to_string(), BTreeSet::new());
        }
        self.created.push(name.to_string());
        proof {
            assert(self@.mailboxes =~= pre.create(name@).mailboxes);
            assert(self@.created =~= pre.created.push(name@));
        }
        Ok(())
    }

    fn select(&mut self, mailbox: &str) -> (r: Result<(), Error>) {
        if !self.mailboxes.contains_key(mailbox) {
            let mut message = "SELECT of nonexistent mailbox ".to_string();
            message.push_str(mailbox);
            return Err(Error::new(message));
        }
        let mut line = "SELECT ".to_string();
        line.push_str(mailbox);
        self.log(line);
        self.selected = Some(mailbox.to_string());
        Ok(())
    }

    fn uid_exists(&mut self, uid: u32) -> (r: Result<bool, Error>) {
        let sel = match self.sel() {
            Ok(s) => s,
            Err(e) => {
                return Err(e);
            },
        };
        Ok(self.holds(&sel, uid))
    }

    fn uid_move(&mut self, uid: u32, dst: &str) -> (r: Result<(), Error>) {
        let sel = match self.sel() {
            Ok(s) => s,
            Err(e) => {
                return Err(e);
            },
        };
        self.log(line_for("UID MOVE ", uid, dst));
        if !self.holds(&sel, uid) {
            let mut message = line_about("UID MOVE of absent uid ", uid, " from ");
            message.push_str(&sel);
            return Err(Error::new(message));
        }
        if self.next_uid == u32::MAX {
            return Err(Error::new("no UID left".to_string()));
        }
        self.discard(&sel, uid);
        // The server assigns a fresh UID in the destination.
        self.deliver(dst);
        Ok(())
    }

    fn uid_copy(&mut self, uid: u32, dst: &str) -> (r: Result<(), Error>) {
        let sel = match self.sel() {
            Ok(s) => s,
            Err(e) => {
                return Err(e);
            },
        };
        self.log(line_for("UID COPY ", uid, dst));
        if !self.holds(&sel, uid) {
            let mut message = line_about("UID COPY of absent uid ", uid, " from ");
            message.push_str(&sel);
            return Err(Error::new(message));
        }
        if self.next_uid == u32::MAX {
            return Err(Error::new("no UID left".to_string()));
        }
        self.deliver(dst);
        Ok(())
    }

    fn uid_store_deleted(&mut self, uid: u32) -> (r: Result<(), Error>) {
        broadcast use vstd::std_specs::btree::group_btree_axioms;

        let sel = match self.sel() {
            Ok(s) => s,
            Err(e) => {
                return Err(e);
            },
        };
        let ghost pre = self@;
        self.log(line_about("STORE ", uid, " +FLAGS \\Deleted"));
        let mut set: BTreeSet<u32> = match self.deleted.remove(&sel) {
            Some(s) => s,
            None => BTreeSet::new(),
        };
        assert(set@ =~= held(pre.deleted, sel@));
        set.insert(uid);
        self.deleted.insert(sel, set);
        assert(self@.deleted =~= pre.deleted.insert(sel@, held(pre.deleted, sel@).insert(uid)));
        Ok(())
    }

    fn uid_expunge(&mut self, uid: u32) -> (r: Result<(), Error>) {
        broadcast use vstd::std_specs::btree::group_btree_axioms;

        let sel = match self.sel() {
            Ok(s) => s,
            Err(e) => {
                return Err(e);
            },
        };
        let ghost pre = self@;
        let mut line = "UID EXPUNGE ".to_string();
        push_decimal(&mut line, uid as u64);
        self.log(line);
        let marked = match self.deleted.get(&sel) {
            Some(s) => s.contains(&uid),
            None => false,
        };
        if !marked {
            return Err(Error::new(line_about("UID EXPUNGE of uid ", uid, " not marked \\Deleted")));
        }
        self.discard(&sel, uid);
        match self.deleted.remove(&sel) {
            Some(s) => {
                let mut set = s;
                set.remove(&uid);
                self.deleted.insert(sel, set);
                assert(self@.deleted =~= pre.deleted.insert(
                    sel@,
                    pre.deleted[sel@].remove(uid),
                ));
            },
            None => {},
        }
        Ok(())
    }
}

} // verus!
