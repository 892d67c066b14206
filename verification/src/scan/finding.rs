//! What a scan is for: it finds every folder below the account root and every message in a
//! folder, says of each what its name and its headers say, and lists them in order.

use vstd::prelude::*;

use crate::filename::parsed;
use crate::header::reads_as;
use crate::model::{Message, MessageView};
use crate::order::{before, lemma_before_total};
use crate::scan::laws::{lemma_met, lemma_picked_items};
use crate::scan::{
    are_records, folder_at, folders_met, goes_on, is_record, messages_in, path_components,
    path_join, places, readable, relative, segments, FileView, FolderRef, FolderView, WalkView,
};
use crate::seqs::{lemma_permutation_covers, picked};
use crate::sort::{is_sorting, placed};
use crate::text::{join, lemma_split_concat, lemma_split_join, split};

verus! {

// ---- paths ----

/// Joining paths puts one slash between them; an absolute path stands for itself.
pub proof fn law_path_join(root: Seq<char>, rel: Seq<char>)
    ensures
        root.len() > 0 && root.last() != '/' && (rel.len() == 0 || rel[0] != '/') ==> path_join(
            root,
            rel,
        ) == root + seq!['/'] + rel,
        root.len() > 0 && root.last() == '/' && (rel.len() == 0 || rel[0] != '/') ==> path_join(
            root,
            rel,
        ) == root + rel,
        rel.len() > 0 && rel[0] == '/' ==> path_join(root, rel) == rel,
{
}

/// The absolute path of some directory names.
pub open spec fn absolute(names: Seq<Seq<char>>) -> Seq<char> {
    seq!['/'] + join(names, seq!['/'])
}

/// Names that can stand in a path.
pub open spec fn proper(names: Seq<Seq<char>>) -> bool {
    forall|i: int|
        0 <= i < names.len() ==> (#[trigger] names[i]).len() > 0 && !names[i].contains('/')
            && names[i] != seq!['.']
}

/// The places of proper names behind one segment.
proof fn lemma_places_all(head: Seq<char>, names: Seq<Seq<char>>)
    requires
        proper(names),
    ensures
        places(seq![head] + names) == Seq::new(names.len() + 1, |i: int| i),
    decreases names.len(),
{
    let all = seq![head] + names;
    if names.len() == 0 {
        assert(all =~= seq![head]);
        assert(all.drop_last() =~= Seq::empty());
        reveal_with_fuel(places, 2);
        assert(places(all) =~= seq![0int]);
        assert(places(all) =~= Seq::new(names.len() + 1, |i: int| i));
    } else {
        let less = names.drop_last();
        assert forall|i: int| 0 <= i < less.len() implies (#[trigger] less[i]).len() > 0
            && !less[i].contains('/') && less[i] != seq!['.'] by {
            assert(less[i] == names[i]);
        }
        lemma_places_all(head, less);
        assert(all.drop_last() =~= seq![head] + less);
        let n = all.len() - 1;
        assert(all[n] == names[names.len() - 1]);
        assert(goes_on(all[n]));
        assert(places(all) =~= Seq::new(names.len() + 1, |i: int| i));
    }
}

/// The components of an absolute path.
proof fn lemma_absolute(names: Seq<Seq<char>>)
    requires
        proper(names),
    ensures
        ({
            let root = seq![Seq::<char>::empty()];
            let path = absolute(names);
            &&& path_components(path) == root + names
            &&& names.len() > 0 ==> segments(path) == root + names && places(segments(path))
                == Seq::new(names.len() + 1, |i: int| i)
        }),
{
    let none = Seq::<char>::empty();
    let root = seq![none];
    let rest = join(names, seq!['/']);
    let path = absolute(names);
    assert(none + seq!['/'] + rest =~= path);
    lemma_split_concat(none, rest, '/');
    assert(split(none, '/') =~= root);
    let all = segments(path);
    assert(all == split(path, '/'));
    if names.len() > 0 {
        lemma_split_join(names, '/');
        assert(all =~= root + names);
        lemma_places_all(none, names);
        assert(path_components(path) =~= root + names);
    } else {
        assert(rest =~= none);
        assert(all =~= root + root);
        assert(all.drop_last() =~= root);
        assert(root.drop_last() =~= Seq::empty());
        reveal_with_fuel(places, 3);
        assert(places(all) =~= seq![0int]);
        assert(path_components(path) =~= root + names);
    }
}

/// A directory is below another if and only if its path has the names of the other's path
/// first and then some more; those more are its path relative to the other.
pub proof fn law_relative(root: Seq<Seq<char>>, dir: Seq<Seq<char>>)
    requires
        proper(root),
        proper(dir),
    ensures
        relative(absolute(root), absolute(dir)) is Some <==> root.len() < dir.len() && dir.take(
            root.len() as int,
        ) == root,
        relative(absolute(root), absolute(dir)) matches Some(rel) ==> rel == join(
            dir.skip(root.len() as int),
            seq!['/'],
        ),
{
    lemma_absolute(root);
    lemma_absolute(dir);
    let top = seq![Seq::<char>::empty()];
    let n = root.len() as int;
    let above = top + root;
    let whole = top + dir;
    if n < dir.len() {
        assert(whole.take(n + 1) =~= top + dir.take(n));
        if dir.take(n) == root {
            assert(whole.take(n + 1) =~= above);
            let at = places(segments(absolute(dir)));
            assert(at[n + 1] == n + 1);
            assert(at.last() == dir.len());
            assert(whole.subrange(n + 1, dir.len() as int + 1) =~= dir.skip(n));
            let rest = dir.skip(n);
            assert(rest[0] == dir[n]);
            assert(join(rest, seq!['/']).len() > 0) by {
                lemma_join_nonempty(rest);
            }
        }
        if whole.take(n + 1) == above {
            assert(dir.take(n) =~= root) by {
                assert forall|i: int| 0 <= i < n implies (#[trigger] dir.take(n)[i]) == root[i] by {
                    assert(whole.take(n + 1)[i + 1] == above[i + 1]);
                }
            }
        }
    }
}

proof fn lemma_join_nonempty(parts: Seq<Seq<char>>)
    requires
        parts.len() > 0,
        parts[0].len() > 0,
    ensures
        join(parts, seq!['/']).len() > 0,
    decreases parts.len(),
{
}

// ---- folders ----

/// The entry is a Maildir folder: a directory with `cur` inside, and none of the three
/// directories that folders have.
pub open spec fn is_folder(e: WalkView) -> bool {
    e.is_dir && e.has_cur && !(e.name == "cur"@ || e.name == "new"@ || e.name == "tmp"@)
}

/// A scan finds exactly the folders: each entry of the walk that is a Maildir folder below
/// the root is listed, by its path relative to the root, nothing else is, and the list is
/// in the order of the dotpaths.
pub proof fn law_folders_found(
    root: Seq<char>,
    entries: Seq<WalkView>,
    order: Seq<usize>,
    r: Seq<FolderView>,
)
    requires
        is_sorting::<FolderRef>(folders_met(root, entries), order),
        r == picked(folders_met(root, entries), order),
        folders_met(root, entries).len() <= usize::MAX,
    ensures
        forall|f: FolderView| #[trigger]
            r.contains(f) <==> exists|i: int|
                {
                    &&& 0 <= i < entries.len()
                    &&& is_folder(#[trigger] entries[i])
                    &&& relative(root, entries[i].path) == Some(f.dotpath)
                    &&& entries[i].path == f.dir
                },
        forall|i: int, j: int|
            0 <= i < j < r.len() ==> (#[trigger] r[i]).dotpath == (#[trigger] r[j]).dotpath
                || before(r[i].dotpath, r[j].dotpath),
{
    let met = folders_met(root, entries);
    assert forall|f: FolderView| #[trigger] r.contains(f) <==> exists|i: int|
        {
            &&& 0 <= i < entries.len()
            &&& is_folder(#[trigger] entries[i])
            &&& relative(root, entries[i].path) == Some(f.dotpath)
            &&& entries[i].path == f.dir
        } by {
        lemma_picked_items(met, order, f);
        lemma_met(root, entries, f);
        if met.contains(f) {
            let i = choose|i: int|
                0 <= i < entries.len() && folder_at(root, #[trigger] entries[i]) == Some(f);
            assert(is_folder(entries[i]));
        }
        if exists|i: int|
            {
                &&& 0 <= i < entries.len()
                &&& is_folder(#[trigger] entries[i])
                &&& relative(root, entries[i].path) == Some(f.dotpath)
                &&& entries[i].path == f.dir
            } {
            let i = choose|i: int|
                {
                    &&& 0 <= i < entries.len()
                    &&& is_folder(#[trigger] entries[i])
                    &&& relative(root, entries[i].path) == Some(f.dotpath)
                    &&& entries[i].path == f.dir
                };
            assert(folder_at(root, entries[i]) == Some(f));
        }
    }
    assert forall|i: int, j: int| 0 <= i < j < r.len() implies (#[trigger] r[i]).dotpath == (
    #[trigger] r[j]).dotpath || before(r[i].dotpath, r[j].dotpath) by {
        let a = order[i] as int;
        let b = order[j] as int;
        assert(placed::<FolderRef>(met, a, b));
        assert(r[i] == met[a] && r[j] == met[b]);
        lemma_before_total(r[i].dotpath, r[j].dotpath);
    }
}

// ---- messages ----

/// The file is a message: a regular file whose name does not start with a dot.
pub open spec fn is_mail() -> spec_fn(FileView) -> bool {
    |f: FileView| f.is_file && (f.name.len() == 0 || f.name[0] != '.')
}

/// The file is a message that could be read.
pub open spec fn is_legible() -> spec_fn(FileView) -> bool {
    |f: FileView| f.is_file && (f.name.len() == 0 || f.name[0] != '.') && f.head is Some
}

/// Every message file counts, be it legible or not, and no other file.
pub proof fn law_messages_counted(entries: Seq<FileView>)
    ensures
        messages_in(entries) == entries.filter(is_mail()).len(),
    decreases entries.len(),
{
    reveal(Seq::filter);
    if entries.len() > 0 {
        law_messages_counted(entries.drop_last());
    }
}

/// The files that are read are the legible ones.
proof fn lemma_readable(entries: Seq<FileView>, is_new: bool)
    ensures
        readable(entries, is_new).len() == entries.filter(is_legible()).len(),
        forall|i: int|
            0 <= i < readable(entries, is_new).len() ==> {
                let file = #[trigger] readable(entries, is_new)[i];
                file.1 == is_new && entries.contains(file.0) && is_legible()(file.0)
            },
        forall|k: int|
            0 <= k < entries.len() && is_legible()(#[trigger] entries[k]) ==> readable(
                entries,
                is_new,
            ).contains((entries[k], is_new)),
    decreases entries.len(),
{
    reveal(Seq::filter);
    if entries.len() > 0 {
        let less = entries.drop_last();
        let some = readable(less, is_new);
        let all = readable(entries, is_new);
        lemma_readable(less, is_new);
        assert forall|i: int| 0 <= i < all.len() implies {
            let file = #[trigger] all[i];
            file.1 == is_new && entries.contains(file.0) && is_legible()(file.0)
        } by {
            if i < some.len() {
                assert(all[i] == some[i]);
                let k = less.index_of(some[i].0);
                assert(entries[k] == all[i].0);
            } else {
                assert(entries[entries.len() - 1] == all[i].0);
            }
        }
        assert forall|k: int|
            0 <= k < entries.len() && is_legible()(#[trigger] entries[k]) implies all.contains(
            (entries[k], is_new),
        ) by {
            if k < less.len() {
                assert(less[k] == entries[k]);
                assert(some.contains((less[k], is_new)));
                let i = some.index_of((less[k], is_new));
                assert(all[i] == (entries[k], is_new));
            } else {
                assert(all[some.len() as int] == (entries[k], is_new));
            }
        }
    }
}

/// The message says of the file what its name, its headers and its place say.
pub open spec fn describes(m: MessageView, folder: Seq<char>, file: FileView, is_new: bool) -> bool {
    &&& m.folder == folder
    &&& m.filename == file.name
    &&& m.uid == parsed(file.name).uid
    &&& m.is_new == is_new
    &&& file.head matches Some(head) && reads_as(head, m.headers, m.message_id)
}

/// A scan finds exactly the messages of a folder: there are as many as there are legible
/// message files, each describes one of them, in `cur` or in `new`, and each of those is
/// described. They are listed by UID, those without one first, and then by filename.
pub proof fn law_messages_found(
    folder: Seq<char>,
    cur: Seq<FileView>,
    new: Seq<FileView>,
    found: Seq<MessageView>,
    order: Seq<usize>,
    r: Seq<MessageView>,
)
    requires
        are_records(folder, readable(cur, false) + readable(new, true), found),
        is_sorting::<Message>(found, order),
        r == picked(found, order),
        found.len() <= usize::MAX,
    ensures
        r.len() == cur.filter(is_legible()).len() + new.filter(is_legible()).len(),
        forall|i: int|
            #![trigger r[i]]
            0 <= i < r.len() ==> exists|f: FileView|
                {
                    &&& is_legible()(f)
                    &&& #[trigger] describes(r[i], folder, f, r[i].is_new)
                    &&& if r[i].is_new {
                        new.contains(f)
                    } else {
                        cur.contains(f)
                    }
                },
        forall|k: int|
            #![trigger cur[k]]
            0 <= k < cur.len() && is_legible()(cur[k]) ==> exists|i: int|
                0 <= i < r.len() && describes(#[trigger] r[i], folder, cur[k], false),
        forall|k: int|
            #![trigger new[k]]
            0 <= k < new.len() && is_legible()(new[k]) ==> exists|i: int|
                0 <= i < r.len() && describes(#[trigger] r[i], folder, new[k], true),
        forall|i: int, j: int|
            0 <= i < j < r.len() ==> match ((#[trigger] r[i]).uid, (#[trigger] r[j]).uid) {
                (None, Some(_)) => true,
                (Some(_), None) => false,
                (Some(a), Some(b)) => a < b || (a == b && (r[i].filename == r[j].filename
                    || before(r[i].filename, r[j].filename))),
                (None, None) => r[i].filename == r[j].filename || before(
                    r[i].filename,
                    r[j].filename,
                ),
            },
{
    let a = readable(cur, false);
    let b = readable(new, true);
    let files = a + b;
    lemma_readable(cur, false);
    lemma_readable(new, true);
    assert forall|i: int|
        #![trigger r[i]]
        0 <= i < r.len() implies exists|f: FileView|
        {
            &&& is_legible()(f)
            &&& #[trigger] describes(r[i], folder, f, r[i].is_new)
            &&& if r[i].is_new {
                new.contains(f)
            } else {
                cur.contains(f)
            }
        } by {
        let k = order[i] as int;
        assert(r[i] == found[k]);
        assert(is_record(folder, files[k], found[k]));
        if k < a.len() {
            assert(files[k] == a[k]);
        } else {
            assert(files[k] == b[k - a.len()]);
        }
        assert(describes(r[i], folder, files[k].0, r[i].is_new));
    }
    assert forall|k: int|
        #![trigger cur[k]]
        0 <= k < cur.len() && is_legible()(cur[k]) implies exists|i: int|
        0 <= i < r.len() && describes(#[trigger] r[i], folder, cur[k], false) by {
        let x = a.index_of((cur[k], false));
        assert(files[x] == (cur[k], false));
        assert(is_record(folder, files[x], found[x]));
        lemma_permutation_covers(order, found.len(), x as usize);
        let i = order.index_of(x as usize);
        assert(order[i] == x);
        assert(r[i] == found[x]);
    }
    assert forall|k: int|
        #![trigger new[k]]
        0 <= k < new.len() && is_legible()(new[k]) implies exists|i: int|
        0 <= i < r.len() && describes(#[trigger] r[i], folder, new[k], true) by {
        let y = b.index_of((new[k], true));
        let x = a.len() + y;
        assert(files[x] == (new[k], true));
        assert(is_record(folder, files[x], found[x]));
        lemma_permutation_covers(order, found.len(), x as usize);
        let i = order.index_of(x as usize);
        assert(order[i] == x);
        assert(r[i] == found[x]);
    }
    assert forall|i: int, j: int| 0 <= i < j < r.len() implies match (
        (#[trigger] r[i]).uid,
        (#[trigger] r[j]).uid,
    ) {
        (None, Some(_)) => true,
        (Some(_), None) => false,
        (Some(x), Some(y)) => x < y || (x == y && (r[i].filename == r[j].filename || before(
            r[i].filename,
            r[j].filename,
        ))),
        (None, None) => r[i].filename == r[j].filename || before(r[i].filename, r[j].filename),
    } by {
        let x = order[i] as int;
        let y = order[j] as int;
        assert(placed::<Message>(found, x, y));
        assert(r[i] == found[x] && r[j] == found[y]);
        lemma_before_total(r[i].filename, r[j].filename);
    }
}

} // verus!
