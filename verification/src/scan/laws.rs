//! What holds of every scan: what it finds does not depend on the order in which the file
//! system lists things.

use vstd::prelude::*;

use crate::header::{addresses_in, block_of, gleaned, reads_as, texts_in};
use crate::model::{HeadersView, Message, MessageView};
use crate::order::{before, lemma_before_total};
use crate::scan::{
    are_records, folder_at, folders_met, is_record, messages_in, readable, FileView, FolderRef,
    FolderView, WalkView,
};
use crate::seqs::{is_permutation, lemma_permutation_covers, lemma_same_list, picked};
use crate::sort::{is_sorting, placed, Ranked};
use crate::textmap::ascending;

verus! {

/// Two lists have the same items.
pub open spec fn same_items<A>(a: Seq<A>, b: Seq<A>) -> bool {
    forall|x: A| #[trigger] a.contains(x) == b.contains(x)
}

/// Picking every position keeps the items.
pub proof fn lemma_picked_items<A>(s: Seq<A>, order: Seq<usize>, x: A)
    requires
        is_permutation(order, s.len()),
        s.len() <= usize::MAX,
    ensures
        picked(s, order).contains(x) == s.contains(x),
{
    let r = picked(s, order);
    if r.contains(x) {
        let i = r.index_of(x);
        assert(s[order[i] as int] == x);
    }
    if s.contains(x) {
        let k = s.index_of(x);
        lemma_permutation_covers(order, s.len(), k as usize);
        let p = order.index_of(k as usize);
        assert(r[p] == x);
    }
}

// ---- folders ----

/// No two folders have the same dotpath.
pub open spec fn apart(folders: Seq<FolderView>) -> bool {
    forall|i: int, j: int|
        0 <= i < folders.len() && 0 <= j < folders.len() && i != j ==> (
        #[trigger] folders[i]).dotpath != (#[trigger] folders[j]).dotpath
}

/// The folders met are those at the entries.
pub proof fn lemma_met(root: Seq<char>, entries: Seq<WalkView>, f: FolderView)
    ensures
        folders_met(root, entries).contains(f) <==> exists|i: int|
            0 <= i < entries.len() && folder_at(root, #[trigger] entries[i]) == Some(f),
    decreases entries.len(),
{
    if entries.len() > 0 {
        let some = entries.drop_last();
        let n = entries.len() - 1;
        lemma_met(root, some, f);
        let met = folders_met(root, some);
        if folders_met(root, entries).contains(f) {
            let k = folders_met(root, entries).index_of(f);
            if k < met.len() {
                assert(met[k] == f);
                let i = choose|i: int|
                    0 <= i < some.len() && folder_at(root, #[trigger] some[i]) == Some(f);
                assert(entries[i] == some[i]);
            } else {
                assert(folder_at(root, entries[n]) == Some(f));
            }
        }
        if exists|i: int|
            0 <= i < entries.len() && folder_at(root, #[trigger] entries[i]) == Some(f) {
            let i = choose|i: int|
                0 <= i < entries.len() && folder_at(root, #[trigger] entries[i]) == Some(f);
            if i < n {
                assert(some[i] == entries[i]);
                assert(met.contains(f));
                let k = met.index_of(f);
                assert(folders_met(root, entries)[k] == f);
            } else {
                assert(folders_met(root, entries)[met.len() as int] == f);
            }
        }
    }
}

/// Walks that meet the same entries meet the same folders.
proof fn lemma_same_folders(root: Seq<char>, a: Seq<WalkView>, b: Seq<WalkView>, f: FolderView)
    requires
        same_items(a, b),
        folders_met(root, a).contains(f),
    ensures
        folders_met(root, b).contains(f),
{
    lemma_met(root, a, f);
    lemma_met(root, b, f);
    let i = choose|i: int| 0 <= i < a.len() && folder_at(root, #[trigger] a[i]) == Some(f);
    assert(a.contains(a[i]));
    assert(b.contains(a[i]));
    let k = b.index_of(a[i]);
    assert(folder_at(root, b[k]) == Some(f));
}

/// Sorted folders with different dotpaths stand strictly in the order by dotpath.
proof fn lemma_folders_in_order(found: Seq<FolderView>, order: Seq<usize>, i: int, j: int)
    requires
        is_sorting::<FolderRef>(found, order),
        apart(found),
        0 <= i < j < order.len(),
    ensures
        before(picked(found, order)[i].dotpath, picked(found, order)[j].dotpath),
{
    let a = order[i] as int;
    let b = order[j] as int;
    assert(placed::<FolderRef>(found, a, b));
    assert(order[i] != order[j]);
    assert(found[a].dotpath != found[b].dotpath);
    lemma_before_total(found[a].dotpath, found[b].dotpath);
}

/// The folders found do not depend on the order of the walk: where no two of them have the
/// same dotpath, walks that meet the same entries give the same list.
pub proof fn law_folders_determined(
    root: Seq<char>,
    a: Seq<WalkView>,
    b: Seq<WalkView>,
    order_a: Seq<usize>,
    order_b: Seq<usize>,
)
    requires
        same_items(a, b),
        apart(folders_met(root, a)),
        apart(folders_met(root, b)),
        is_sorting::<FolderRef>(folders_met(root, a), order_a),
        is_sorting::<FolderRef>(folders_met(root, b), order_b),
        folders_met(root, a).len() <= usize::MAX,
        folders_met(root, b).len() <= usize::MAX,
    ensures
        picked(folders_met(root, a), order_a) == picked(folders_met(root, b), order_b),
{
    let x = folders_met(root, a);
    let y = folders_met(root, b);
    let r = picked(x, order_a);
    let t = picked(y, order_b);
    assert(same_items(b, a));
    assert forall|f: FolderView| #[trigger] r.contains(f) == t.contains(f) by {
        lemma_picked_items(x, order_a, f);
        lemma_picked_items(y, order_b, f);
        if x.contains(f) {
            lemma_same_folders(root, a, b, f);
        }
        if y.contains(f) {
            lemma_same_folders(root, b, a, f);
        }
    }
    let less = |p: FolderView, q: FolderView| before(p.dotpath, q.dotpath);
    assert forall|p: FolderView, q: FolderView| #[trigger] less(p, q) implies !less(q, p) by {
        lemma_before_total(p.dotpath, q.dotpath);
    }
    assert forall|i: int, j: int| 0 <= i < j < r.len() implies less(
        #[trigger] r[i],
        #[trigger] r[j],
    ) by {
        lemma_folders_in_order(x, order_a, i, j);
    }
    assert forall|i: int, j: int| 0 <= i < j < t.len() implies less(
        #[trigger] t[i],
        #[trigger] t[j],
    ) by {
        lemma_folders_in_order(y, order_b, i, j);
    }
    lemma_same_list(r, t, less);
}

// ---- messages ----

/// The readable messages of a folder, given the entries of its `cur` and `new`.
pub open spec fn files_of(cur: Seq<FileView>, new: Seq<FileView>) -> Seq<(FileView, bool)> {
    readable(cur, false) + readable(new, true)
}

/// No two files have the same name.
pub open spec fn named_apart(files: Seq<(FileView, bool)>) -> bool {
    forall|i: int, j: int|
        0 <= i < files.len() && 0 <= j < files.len() && i != j ==> (#[trigger] files[i]).0.name
            != (#[trigger] files[j]).0.name
}

/// The readable messages are those entries that are messages and could be read.
proof fn lemma_readable(entries: Seq<FileView>, is_new: bool, f: (FileView, bool))
    ensures
        readable(entries, is_new).contains(f) <==> f.1 == is_new && f.0.is_message()
            && f.0.head is Some && entries.contains(f.0),
    decreases entries.len(),
{
    if entries.len() > 0 {
        let some = entries.drop_last();
        let n = entries.len() - 1;
        let all = readable(entries, is_new);
        let part = readable(some, is_new);
        lemma_readable(some, is_new, f);
        if all.contains(f) {
            let k = all.index_of(f);
            if k < part.len() {
                assert(part[k] == f);
                let i = some.index_of(f.0);
                assert(entries[i] == f.0);
            } else {
                assert(entries[n] == f.0);
            }
        }
        if f.1 == is_new && f.0.is_message() && f.0.head is Some && entries.contains(f.0) {
            let i = entries.index_of(f.0);
            if i < n {
                assert(some[i] == f.0);
                assert(part.contains(f));
                let k = part.index_of(f);
                assert(all[k] == f);
            } else {
                assert(all[part.len() as int] == f);
            }
        }
    }
}

/// Listings with the same entries have the same readable messages.
proof fn lemma_same_files(
    cur_a: Seq<FileView>,
    new_a: Seq<FileView>,
    cur_b: Seq<FileView>,
    new_b: Seq<FileView>,
    f: (FileView, bool),
)
    requires
        same_items(cur_a, cur_b),
        same_items(new_a, new_b),
        files_of(cur_a, new_a).contains(f),
    ensures
        files_of(cur_b, new_b).contains(f),
{
    let a = files_of(cur_a, new_a);
    let k = a.index_of(f);
    let n = readable(cur_a, false).len();
    lemma_readable(cur_a, false, f);
    lemma_readable(new_a, true, f);
    lemma_readable(cur_b, false, f);
    lemma_readable(new_b, true, f);
    if k < n {
        assert(readable(cur_a, false)[k] == f);
        assert(cur_b.contains(f.0));
        let i = readable(cur_b, false).index_of(f);
        assert(files_of(cur_b, new_b)[i] == f);
    } else {
        assert(readable(new_a, true)[k - n] == f);
        assert(new_b.contains(f.0));
        let i = readable(new_b, true).index_of(f);
        assert(files_of(cur_b, new_b)[i + readable(cur_b, false).len()] == f);
    }
}

/// A message reads in one way only.
proof fn lemma_one_reading(
    raw: Seq<u8>,
    h: HeadersView,
    id: Option<Seq<char>>,
    h2: HeadersView,
    id2: Option<Seq<char>>,
)
    requires
        reads_as(raw, h, id),
        reads_as(raw, h2, id2),
    ensures
        h == h2,
        id == id2,
{
    match texts_in(block_of(raw)) {
        Some(t) => {
            let a = addresses_in(block_of(raw))->0;
            assert(gleaned(t, a, h) && gleaned(t, a, h2));
            let less = |x: Seq<char>, y: Seq<char>| before(x, y);
            assert forall|x: Seq<char>, y: Seq<char>| #[trigger] less(x, y) implies !less(
                y,
                x,
            ) by {
                lemma_before_total(x, y);
            }
            assert forall|x: Seq<char>| #[trigger]
                h.recipients.contains(x) == h2.recipients.contains(x) by {
                assert(h.recipients.to_set().contains(x) == h2.recipients.to_set().contains(x));
            }
            assert(ascending(h.recipients) && ascending(h2.recipients));
            lemma_same_list(h.recipients, h2.recipients, less);
        },
        None => {},
    }
}

/// The records of a folder with the same files, found in whatever order, are the same.
proof fn lemma_same_records(
    folder: Seq<char>,
    files_a: Seq<(FileView, bool)>,
    files_b: Seq<(FileView, bool)>,
    a: Seq<MessageView>,
    b: Seq<MessageView>,
    m: MessageView,
)
    requires
        same_items(files_a, files_b),
        are_records(folder, files_a, a),
        are_records(folder, files_b, b),
        a.contains(m),
    ensures
        b.contains(m),
{
    let i = a.index_of(m);
    let f = files_a[i];
    assert(is_record(folder, f, a[i]));
    assert(files_a.contains(f));
    assert(files_b.contains(f));
    let k = files_b.index_of(f);
    assert(is_record(folder, files_b[k], b[k]));
    lemma_one_reading(
        f.0.head->0,
        m.headers,
        m.message_id,
        b[k].headers,
        b[k].message_id,
    );
    assert(b[k] == m);
}

/// Sorted records of files with different names stand strictly in their order.
proof fn lemma_messages_in_order(
    folder: Seq<char>,
    files: Seq<(FileView, bool)>,
    found: Seq<MessageView>,
    order: Seq<usize>,
    i: int,
    j: int,
)
    requires
        named_apart(files),
        are_records(folder, files, found),
        is_sorting::<Message>(found, order),
        0 <= i < j < order.len(),
    ensures
        Message::ranks(picked(found, order)[i], picked(found, order)[j]),
{
    let a = order[i] as int;
    let b = order[j] as int;
    assert(placed::<Message>(found, a, b));
    assert(order[i] != order[j]);
    assert(is_record(folder, files[a], found[a]));
    assert(is_record(folder, files[b], found[b]));
    assert(files[a].0.name != files[b].0.name);
    lemma_before_total(found[a].filename, found[b].filename);
}

/// The messages found do not depend on the order in which the files are listed: where no
/// two readable messages of a folder have the same name, listings of the same files give
/// the same records in the same order.
pub proof fn law_messages_determined(
    folder: Seq<char>,
    cur_a: Seq<FileView>,
    new_a: Seq<FileView>,
    cur_b: Seq<FileView>,
    new_b: Seq<FileView>,
    a: Seq<MessageView>,
    b: Seq<MessageView>,
    order_a: Seq<usize>,
    order_b: Seq<usize>,
)
    requires
        same_items(cur_a, cur_b),
        same_items(new_a, new_b),
        named_apart(files_of(cur_a, new_a)),
        named_apart(files_of(cur_b, new_b)),
        are_records(folder, files_of(cur_a, new_a), a),
        are_records(folder, files_of(cur_b, new_b), b),
        is_sorting::<Message>(a, order_a),
        is_sorting::<Message>(b, order_b),
        a.len() <= usize::MAX,
        b.len() <= usize::MAX,
    ensures
        picked(a, order_a) == picked(b, order_b),
{
    let files_a = files_of(cur_a, new_a);
    let files_b = files_of(cur_b, new_b);
    assert(same_items(cur_b, cur_a));
    assert(same_items(new_b, new_a));
    assert forall|f: (FileView, bool)| #[trigger] files_a.contains(f) == files_b.contains(f) by {
        if files_a.contains(f) {
            lemma_same_files(cur_a, new_a, cur_b, new_b, f);
        }
        if files_b.contains(f) {
            lemma_same_files(cur_b, new_b, cur_a, new_a, f);
        }
    }
    assert(same_items(files_b, files_a));
    let r = picked(a, order_a);
    let t = picked(b, order_b);
    assert forall|m: MessageView| #[trigger] r.contains(m) == t.contains(m) by {
        lemma_picked_items(a, order_a, m);
        lemma_picked_items(b, order_b, m);
        if a.contains(m) {
            lemma_same_records(folder, files_a, files_b, a, b, m);
        }
        if b.contains(m) {
            lemma_same_records(folder, files_b, files_a, b, a, m);
        }
    }
    let less = |p: MessageView, q: MessageView| Message::ranks(p, q);
    assert forall|p: MessageView, q: MessageView| #[trigger] less(p, q) implies !less(q, p) by {
        Message::lemma_ranks(p, q, p);
    }
    assert forall|i: int, j: int| 0 <= i < j < r.len() implies less(
        #[trigger] r[i],
        #[trigger] r[j],
    ) by {
        lemma_messages_in_order(folder, files_a, a, order_a, i, j);
    }
    assert forall|i: int, j: int| 0 <= i < j < t.len() implies less(
        #[trigger] t[i],
        #[trigger] t[j],
    ) by {
        lemma_messages_in_order(folder, files_b, b, order_b, i, j);
    }
    lemma_same_list(r, t, less);
}

/// Every message file is accounted for: there are as many records as readable messages,
/// and as many readable messages as messages if all of them could be read.
pub proof fn law_every_file_counts(entries: Seq<FileView>, is_new: bool)
    ensures
        readable(entries, is_new).len() <= messages_in(entries) <= entries.len(),
        (forall|i: int| 0 <= i < entries.len() ==> (#[trigger] entries[i]).head is Some)
            ==> readable(entries, is_new).len() == messages_in(entries),
    decreases entries.len(),
{
    if entries.len() > 0 {
        let some = entries.drop_last();
        law_every_file_counts(some, is_new);
        if forall|i: int| 0 <= i < entries.len() ==> (#[trigger] entries[i]).head is Some {
            assert forall|i: int| 0 <= i < some.len() implies (#[trigger] some[i]).head is Some by {
                assert(some[i] == entries[i]);
            }
            assert(entries.last() == entries[entries.len() - 1]);
        }
    }
}

} // verus!
