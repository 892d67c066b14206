//! Walking a mbsync-managed Maildir account: which directories are folders, which files
//! are messages, and the header-level [`Message`] records the suggestion engine consumes.
//!
//! The directories are listed and the files read elsewhere; what is made of the listings
//! is decided here. Paths are texts with `/` between components.

pub mod finding;
pub mod laws;

use vstd::prelude::*;

use crate::filename::{parsed, MaildirName};
use crate::header::{block_of, parse, reads_as};
use crate::model::{Message, MessageView};
use crate::order::{before, lemma_before_total, lemma_before_trans, str_before};
use crate::seqs::{all_views, is_permutation, picked};
use crate::sort::{is_sorting, sorted_order, Ranked};
use crate::text::{
    append_chars, chars_eq, from_chars, join, joined, opt_text, split, split_chars, str_eq,
    to_chars, views,
};

verus! {

// ---- paths ----

/// A path below another: `rel` itself if it is absolute, else appended to `root` with one
/// `/` between them.
pub open spec fn path_join(root: Seq<char>, rel: Seq<char>) -> Seq<char> {
    if rel.len() > 0 && rel[0] == '/' {
        rel
    } else if root.len() > 0 && root.last() != '/' {
        root + seq!['/'] + rel
    } else {
        root + rel
    }
}

/// A path below another.
pub fn join_path(root: &str, rel: &str) -> (r: String)
    ensures
        r@ == path_join(root@, rel@),
{
    let below = to_chars(rel);
    if below.len() > 0 && below[0] == '/' {
        return rel.to_string();
    }
    let above = to_chars(root);
    let mut r = root.to_string();
    if above.len() > 0 && above[above.len() - 1] != '/' {
        r.push('/');
    }
    r.push_str(rel);
    assert(r@ =~= path_join(root@, rel@));
    r
}

/// A segment of a path says where to go: it is neither empty nor the current directory.
pub open spec fn goes_on(segment: Seq<char>) -> bool {
    segment.len() > 0 && segment != seq!['.']
}

/// The places of the components among the segments of a path that is not empty: the
/// first segment, which stands for the root where it is empty, and those that go on.
pub open spec fn places(segments: Seq<Seq<char>>) -> Seq<int>
    decreases segments.len(),
{
    if segments.len() == 0 {
        Seq::empty()
    } else {
        let n = segments.len() - 1;
        let some = places(segments.drop_last());
        if n == 0 || goes_on(segments[n]) {
            some.push(n)
        } else {
            some
        }
    }
}

/// The segments of a path; the empty path has none.
pub open spec fn segments(path: Seq<char>) -> Seq<Seq<char>> {
    if path.len() == 0 {
        Seq::empty()
    } else {
        split(path, '/')
    }
}

/// The components of a path: the root as an empty text, then the segments, without those
/// that lead nowhere. A leading `.` counts.
pub open spec fn path_components(path: Seq<char>) -> Seq<Seq<char>> {
    let all = segments(path);
    let at = places(all);
    Seq::new(at.len(), |k: int| all[at[k]])
}

/// Places ascend and are places of segments.
proof fn lemma_places(segments: Seq<Seq<char>>)
    ensures
        forall|k: int|
            0 <= k < places(segments).len() ==> 0 <= (#[trigger] places(segments)[k])
                < segments.len(),
        forall|j: int, k: int|
            0 <= j < k < places(segments).len() ==> (#[trigger] places(segments)[j]) < (
            #[trigger] places(segments)[k]),
    decreases segments.len(),
{
    if segments.len() > 0 {
        lemma_places(segments.drop_last());
        let some = places(segments.drop_last());
        let all = places(segments);
        assert forall|k: int| 0 <= k < all.len() implies 0 <= (#[trigger] all[k])
            < segments.len() by {
            if k < some.len() {
                assert(all[k] == some[k]);
            }
        }
        assert forall|j: int, k: int| 0 <= j < k < all.len() implies (#[trigger] all[j]) < (
        #[trigger] all[k]) by {
            assert(all[j] == some[j]);
            if k < some.len() {
                assert(all[k] == some[k]);
            }
        }
    }
}

/// The segments of a path.
fn segments_of(path: &str) -> (r: Vec<Vec<char>>)
    ensures
        views(r@) == segments(path@),
{
    let chars = to_chars(path);
    if chars.len() == 0 {
        let none: Vec<Vec<char>> = Vec::new();
        assert(views(none@) =~= Seq::empty());
        return none;
    }
    split_chars(&chars, '/')
}

/// The places of the components among the segments of a path.
fn places_of(all: &Vec<Vec<char>>) -> (r: Vec<usize>)
    ensures
        r@.len() == places(views(all@)).len(),
        forall|k: int| 0 <= k < r@.len() ==> (#[trigger] r@[k]) == places(views(all@))[k],
        forall|k: int| 0 <= k < r@.len() ==> (#[trigger] r@[k]) < all@.len(),
{
    let ghost whole = views(all@);
    let mut r: Vec<usize> = Vec::new();
    let dot = ['.'];
    assert(dot@ =~= seq!['.']);
    for i in 0..all.len()
        invariant
            whole == views(all@),
            dot@ == seq!['.'],
            r@.len() == places(whole.take(i as int)).len(),
            forall|k: int|
                0 <= k < r@.len() ==> (#[trigger] r@[k]) == places(whole.take(i as int))[k],
    {
        assert(whole.take(i + 1).drop_last() =~= whole.take(i as int));
        assert(whole.take(i + 1)[i as int] == all@[i as int]@);
        if i == 0 || (all[i].len() > 0 && !chars_eq(&all[i], &dot)) {
            r.push(i);
        }
    }
    proof {
        assert(whole.take(all@.len() as int) =~= whole);
        lemma_places(whole);
        assert forall|k: int| 0 <= k < r@.len() implies (#[trigger] r@[k]) < all@.len() by {
            assert(r@[k] == places(whole)[k]);
        }
    }
    r
}

/// The path of a directory relative to a root: what is written from its first component
/// after those of the root to its last component. None if it is not below the root, or is
/// the root.
pub open spec fn relative(root: Seq<char>, dir: Seq<char>) -> Option<Seq<char>> {
    let above = path_components(root);
    let whole = path_components(dir);
    let n = above.len() as int;
    if n < whole.len() && whole.take(n) == above {
        let at = places(segments(dir));
        let rest = join(segments(dir).subrange(at[n], at.last() + 1), seq!['/']);
        Some(
            if rest.len() == 0 {
                seq!['/']
            } else {
                rest
            },
        )
    } else {
        None
    }
}

// ---- accounts and folders ----

/// A folder within an account, identified by its dotpath (filesystem path relative to
/// the account root, e.g. ".INBOX" or ".lists/.elixir").
#[derive(Debug, PartialEq, Eq)]
pub struct FolderRef {
    pub dotpath: String,
    pub dir: String,
}

/// The view of a [`FolderRef`].
#[verifier::ext_equal]
pub ghost struct FolderView {
    pub dotpath: Seq<char>,
    pub dir: Seq<char>,
}

impl View for FolderRef {
    type V = FolderView;

    open spec fn view(&self) -> FolderView {
        FolderView { dotpath: self.dotpath@, dir: self.dir@ }
    }
}

impl Clone for FolderRef {
    fn clone(&self) -> (r: FolderRef)
        ensures
            r@ == self@,
    {
        FolderRef { dotpath: self.dotpath.clone(), dir: self.dir.clone() }
    }
}

impl Ranked for FolderRef {
    open spec fn ranks(a: FolderView, b: FolderView) -> bool {
        before(a.dotpath, b.dotpath)
    }

    proof fn lemma_ranks(a: FolderView, b: FolderView, c: FolderView) {
        lemma_before_total(a.dotpath, b.dotpath);
        lemma_before_total(b.dotpath, c.dotpath);
        lemma_before_total(a.dotpath, c.dotpath);
        if before(a.dotpath, b.dotpath) && before(b.dotpath, c.dotpath) {
            lemma_before_trans(a.dotpath, b.dotpath, c.dotpath);
        }
        if before(c.dotpath, a.dotpath) && before(a.dotpath, b.dotpath) {
            lemma_before_trans(c.dotpath, a.dotpath, b.dotpath);
        }
    }

    fn ranked_before(&self, other: &FolderRef) -> (r: bool) {
        str_before(&self.dotpath, &other.dotpath)
    }
}

/// An entry met on the walk through an account.
#[derive(Debug, Clone, PartialEq, Eq)]
pub struct WalkEntry {
    pub path: String,
    /// The last component of the path.
    pub name: String,
    /// Whether the entry is a directory.
    pub is_dir: bool,
    /// Whether it has a subdirectory `cur`.
    pub has_cur: bool,
}

/// The view of a [`WalkEntry`].
#[verifier::ext_equal]
pub ghost struct WalkView {
    pub path: Seq<char>,
    pub name: Seq<char>,
    pub is_dir: bool,
    pub has_cur: bool,
}

impl View for WalkEntry {
    type V = WalkView;

    open spec fn view(&self) -> WalkView {
        WalkView {
            path: self.path@,
            name: self.name@,
            is_dir: self.is_dir,
            has_cur: self.has_cur,
        }
    }
}

/// The folder at an entry of the walk: a directory with a `cur`, other than a Maildir
/// sub-part, below the root.
pub open spec fn folder_at(root: Seq<char>, entry: WalkView) -> Option<FolderView> {
    if entry.is_dir && entry.name != "cur"@ && entry.name != "new"@ && entry.name != "tmp"@
        && entry.has_cur {
        match relative(root, entry.path) {
            Some(dotpath) => Some(FolderView { dotpath, dir: entry.path }),
            None => None,
        }
    } else {
        None
    }
}

/// The folders met on a walk, in the order of the walk.
pub open spec fn folders_met(root: Seq<char>, entries: Seq<WalkView>) -> Seq<FolderView>
    decreases entries.len(),
{
    if entries.len() == 0 {
        Seq::empty()
    } else {
        let some = folders_met(root, entries.drop_last());
        match folder_at(root, entries.last()) {
            Some(f) => some.push(f),
            None => some,
        }
    }
}

/// The root of one mbsync account (e.g. `~/Maildir/<account>`).
#[derive(Debug, Clone)]
pub struct Account {
    pub root: String,
}

impl Account {
    /// The account at `root`.
    pub fn new(root: &str) -> (r: Account)
        ensures
            r.root@ == root@,
    {
        Account { root: root.to_string() }
    }

    /// Every Maildir folder among the entries of a walk through the account root. A
    /// directory is a folder iff it contains a `cur/` subdirectory (the Maildir marker).
    /// Results are sorted by dotpath for deterministic output.
    pub fn folders(&self, entries: &[WalkEntry]) -> (r: Vec<FolderRef>)
        ensures
            exists|order: Seq<usize>| #[trigger]
                is_sorting::<FolderRef>(folders_met(self.root@, all_views(entries@)), order)
                    && all_views(r@) == picked(
                    folders_met(self.root@, all_views(entries@)),
                    order,
                ),
    {
        let ghost all = all_views(entries@);
        let mut out: Vec<FolderRef> = Vec::new();
        assert(all_views(out@) =~= folders_met(self.root@, all.take(0)));
        for i in 0..entries.len()
            invariant
                all == all_views(entries@),
                all_views(out@) == folders_met(self.root@, all.take(i as int)),
        {
            let ghost was = all_views(out@);
            let entry = &entries[i];
            proof {
                assert(all.take(i + 1).drop_last() =~= all.take(i as int));
                assert(all.take(i + 1).last() == entry@);
            }
            // Skip the Maildir sub-parts themselves.
            if entry.is_dir && !str_eq(&entry.name, "cur") && !str_eq(&entry.name, "new")
                && !str_eq(&entry.name, "tmp") && entry.has_cur {
                if let Some(dotpath) = self.dotpath_of(&entry.path) {
                    out.push(FolderRef { dotpath, dir: entry.path.clone() });
                    assert(all_views(out@) =~= was.push(folder_at(self.root@, entry@)->0));
                }
            }
        }
        assert(all.take(entries@.len() as int) =~= all);
        let order = sorted_order(&out);
        let ghost given = all_views(out@);
        let mut r: Vec<FolderRef> = Vec::new();
        for i in 0..order.len()
            invariant
                given == all_views(out@),
                is_permutation(order@, given.len()),
                all_views(r@) == picked(given, order@).take(i as int),
        {
            let ghost was = all_views(r@);
            r.push(out[order[i]].clone());
            assert(all_views(r@) =~= was.push(given[order@[i as int] as int]));
            assert(picked(given, order@).take(i + 1) =~= picked(given, order@).take(
                i as int,
            ).push(given[order@[i as int] as int]));
        }
        assert(picked(given, order@).take(order@.len() as int) =~= picked(given, order@));
        assert(is_sorting::<FolderRef>(given, order@));
        r
    }

    /// Compute the dotpath of a folder directory relative to the account root.
    /// Returns `None` for the root itself.
    pub fn dotpath_of(&self, dir: &str) -> (r: Option<String>)
        ensures
            opt_text(r) == relative(self.root@, dir@),
    {
        let above = segments_of(&self.root);
        let whole = segments_of(dir);
        let above_at = places_of(&above);
        let whole_at = places_of(&whole);
        let n: usize = above_at.len();
        let ghost a = path_components(self.root@);
        let ghost w = path_components(dir@);
        if n >= whole_at.len() {
            return None;
        }
        for i in 0..n
            invariant
                views(above@) == segments(self.root@),
                views(whole@) == segments(dir@),
                a == path_components(self.root@),
                w == path_components(dir@),
                n == a.len() == above_at@.len(),
                n < w.len() == whole_at@.len(),
                forall|k: int|
                    0 <= k < n ==> (#[trigger] above_at@[k]) == places(views(above@))[k]
                        && above_at@[k] < above@.len(),
                forall|k: int|
                    0 <= k < w.len() ==> (#[trigger] whole_at@[k]) == places(views(whole@))[k]
                        && whole_at@[k] < whole@.len(),
                forall|j: int| 0 <= j < i ==> a[j] == w[j],
        {
            assert(a[i as int] == above@[above_at@[i as int] as int]@);
            assert(w[i as int] == whole@[whole_at@[i as int] as int]@);
            if !chars_eq(&above[above_at[i]], &whole[whole_at[i]]) {
                assert(w.take(a.len() as int)[i as int] != a[i as int]);
                return None;
            }
        }
        assert(w.take(a.len() as int) =~= a);
        let start: usize = whole_at[n];
        let last: usize = whole_at[whole_at.len() - 1];
        proof {
            lemma_places(segments(dir@));
        }
        let total: usize = whole.len();
        let mut rest: Vec<Vec<char>> = Vec::new();
        let mut i: usize = start;
        while i <= last
            invariant
                start <= i <= last + 1,
                last < total == whole@.len(),
                rest@.len() == i - start,
                forall|j: int|
                    0 <= j < rest@.len() ==> (#[trigger] rest@[j])@ == whole@[start + j]@,
            decreases last + 1 - i,
        {
            let mut piece: Vec<char> = Vec::new();
            append_chars(&mut piece, &whole[i]);
            assert(piece@ =~= whole@[i as int]@);
            rest.push(piece);
            i += 1;
        }
        assert(views(rest@) =~= segments(dir@).subrange(start as int, last + 1));
        let slash = ['/'];
        assert(slash@ =~= seq!['/']);
        let below = joined(&rest, &slash);
        if below.len() == 0 {
            Some(from_chars(&slash))
        } else {
            Some(from_chars(&below))
        }
    }

    /// Find a folder by dotpath.
    pub fn folder(&self, dotpath: &str) -> (r: FolderRef)
        ensures
            r@ == (FolderView { dotpath: dotpath@, dir: path_join(self.root@, dotpath@) }),
    {
        FolderRef { dotpath: dotpath.to_string(), dir: join_path(&self.root, dotpath) }
    }
}

// ---- messages ----

/// A file in a folder's `cur/` or `new/`.
#[derive(Debug, Clone, PartialEq, Eq)]
pub struct FileEntry {
    pub name: String,
    /// Whether the entry is a regular file.
    pub is_file: bool,
    /// The file from its start to past the header block, or `None` if it could not be
    /// read.
    pub head: Option<Vec<u8>>,
}

/// The view of a [`FileEntry`].
#[verifier::ext_equal]
pub ghost struct FileView {
    pub name: Seq<char>,
    pub is_file: bool,
    pub head: Option<Seq<u8>>,
}

impl View for FileEntry {
    type V = FileView;

    open spec fn view(&self) -> FileView {
        FileView {
            name: self.name@,
            is_file: self.is_file,
            head: match self.head {
                Some(v) => Some(v@),
                None => None,
            },
        }
    }
}

impl FileView {
    /// The entry is a message: a regular file, and no dotfile.
    pub open spec fn is_message(self) -> bool {
        self.is_file && !(self.name.len() > 0 && self.name[0] == '.')
    }
}

/// How many of the entries are messages.
pub open spec fn messages_in(entries: Seq<FileView>) -> nat
    decreases entries.len(),
{
    if entries.len() == 0 {
        0
    } else {
        messages_in(entries.drop_last()) + if entries.last().is_message() {
            1nat
        } else {
            0
        }
    }
}

/// The readable messages among the entries of a subdirectory, each with whether it is new.
pub open spec fn readable(entries: Seq<FileView>, is_new: bool) -> Seq<(FileView, bool)>
    decreases entries.len(),
{
    if entries.len() == 0 {
        Seq::empty()
    } else {
        let some = readable(entries.drop_last(), is_new);
        if entries.last().is_message() && entries.last().head is Some {
            some.push((entries.last(), is_new))
        } else {
            some
        }
    }
}

/// `m` is the record of a message file.
pub open spec fn is_record(folder: Seq<char>, file: (FileView, bool), m: MessageView) -> bool {
    &&& m.folder == folder
    &&& m.uid == parsed(file.0.name).uid
    &&& m.filename == file.0.name
    &&& m.is_new == file.1
    &&& reads_as(file.0.head->0, m.headers, m.message_id)
}

/// The records of message files, in the same order.
pub open spec fn are_records(
    folder: Seq<char>,
    files: Seq<(FileView, bool)>,
    ms: Seq<MessageView>,
) -> bool {
    &&& ms.len() == files.len()
    &&& forall|i: int| 0 <= i < ms.len() ==> is_record(folder, files[i], #[trigger] ms[i])
}

/// One UID comes strictly before another: absent ones first, then by number.
pub open spec fn uid_before(a: Option<u32>, b: Option<u32>) -> bool {
    match (a, b) {
        (Some(x), Some(y)) => x < y,
        (None, Some(_)) => true,
        _ => false,
    }
}

impl Ranked for Message {
    /// By UID, then by filename.
    open spec fn ranks(a: MessageView, b: MessageView) -> bool {
        uid_before(a.uid, b.uid) || (a.uid == b.uid && before(a.filename, b.filename))
    }

    proof fn lemma_ranks(a: MessageView, b: MessageView, c: MessageView) {
        lemma_before_total(a.filename, b.filename);
        lemma_before_total(b.filename, c.filename);
        lemma_before_total(a.filename, c.filename);
        if before(a.filename, b.filename) && before(b.filename, c.filename) {
            lemma_before_trans(a.filename, b.filename, c.filename);
        }
        if before(c.filename, a.filename) && before(a.filename, b.filename) {
            lemma_before_trans(c.filename, a.filename, b.filename);
        }
    }

    fn ranked_before(&self, other: &Message) -> (r: bool) {
        match (self.uid, other.uid) {
            (Some(x), Some(y)) => x < y || (x == y && str_before(&self.filename, &other.filename)),
            (None, Some(_)) => true,
            (Some(_), None) => false,
            (None, None) => str_before(&self.filename, &other.filename),
        }
    }
}

/// The headers of every file fit what the parser can take.
pub open spec fn heads_fit(entries: Seq<FileView>) -> bool {
    forall|i: int|
        0 <= i < entries.len() && (#[trigger] entries[i]).head is Some ==> block_of(
            entries[i].head->0,
        ).len() <= i32::MAX
}

/// Whether an entry is a message.
fn is_message(entry: &FileEntry) -> (r: bool)
    ensures
        r == entry@.is_message(),
{
    if !entry.is_file {
        return false;
    }
    let name = to_chars(&entry.name);
    !(name.len() > 0 && name[0] == '.')
}

/// The number of messages among the entries of a subdirectory.
fn count_files(entries: &[FileEntry]) -> (r: usize)
    ensures
        r == messages_in(all_views(entries@)),
        r <= entries@.len(),
{
    let ghost all = all_views(entries@);
    let mut n: usize = 0;
    assert(all.take(0) =~= Seq::empty());
    for i in 0..entries.len()
        invariant
            all == all_views(entries@),
            n == messages_in(all.take(i as int)),
            n <= i,
    {
        assert(all.take(i + 1).drop_last() =~= all.take(i as int));
        assert(all.take(i + 1).last() == entries@[i as int]@);
        if is_message(&entries[i]) {
            n += 1;
        }
    }
    assert(all.take(entries@.len() as int) =~= all);
    n
}

impl FolderRef {
    /// Number of messages in this folder, given the entries of its `cur/` and `new/`.
    pub fn message_count(&self, cur: &[FileEntry], new: &[FileEntry]) -> (r: usize)
        requires
            cur@.len() + new@.len() <= usize::MAX,
        ensures
            r == messages_in(all_views(cur@)) + messages_in(all_views(new@)),
    {
        count_files(cur) + count_files(new)
    }

    /// Append the records of the readable messages of a subdirectory.
    fn add_records(
        &self,
        out: &mut Vec<Message>,
        entries: &[FileEntry],
        is_new: bool,
        Ghost(files): Ghost<Seq<(FileView, bool)>>,
    )
        requires
            heads_fit(all_views(entries@)),
            are_records(self.dotpath@, files, all_views(old(out)@)),
        ensures
            are_records(
                self.dotpath@,
                files + readable(all_views(entries@), is_new),
                all_views(final(out)@),
            ),
    {
        let ghost all = all_views(entries@);
        assert(all.take(0) =~= Seq::empty());
        assert(files + readable(all.take(0), is_new) =~= files);
        for i in 0..entries.len()
            invariant
                all == all_views(entries@),
                heads_fit(all),
                are_records(
                    self.dotpath@,
                    files + readable(all.take(i as int), is_new),
                    all_views(out@),
                ),
        {
            let ghost was = all_views(out@);
            let ghost some = files + readable(all.take(i as int), is_new);
            let entry = &entries[i];
            proof {
                assert(all.take(i + 1).drop_last() =~= all.take(i as int));
                assert(all.take(i + 1).last() == entry@);
                assert(all[i as int] == entry@);
            }
            if is_message(entry) {
                // A file that could not be read never aborts the scan.
                if let Some(raw) = &entry.head {
                    let name = MaildirName::parse(&entry.name);
                    let (headers, message_id) = parse(raw);
                    let m = Message {
                        folder: self.dotpath.clone(),
                        uid: name.uid,
                        filename: entry.name.clone(),
                        is_new,
                        message_id,
                        headers,
                    };
                    let ghost view = m@;
                    out.push(m);
                    proof {
                        let now = files + readable(all.take(i + 1), is_new);
                        assert(now =~= some.push((entry@, is_new)));
                        assert(all_views(out@) =~= was.push(view));
                        assert(is_record(self.dotpath@, (entry@, is_new), view));
                        assert forall|k: int| 0 <= k < all_views(out@).len() implies is_record(
                            self.dotpath@,
                            now[k],
                            #[trigger] all_views(out@)[k],
                        ) by {
                            if k < was.len() {
                                assert(all_views(out@)[k] == was[k]);
                                assert(now[k] == some[k]);
                            }
                        }
                    }
                }
            }
        }
        assert(all.take(entries@.len() as int) =~= all);
    }

    /// The messages in this folder as header-level [`Message`] records, given the entries
    /// of its `cur/` and `new/`, in the deterministic order of (uid, filename).
    pub fn messages(&self, cur: &[FileEntry], new: &[FileEntry]) -> (r: Vec<Message>)
        requires
            heads_fit(all_views(cur@)),
            heads_fit(all_views(new@)),
        ensures
            exists|found: Seq<MessageView>, order: Seq<usize>|
                {
                    &&& #[trigger] are_records(
                        self.dotpath@,
                        readable(all_views(cur@), false) + readable(all_views(new@), true),
                        found,
                    )
                    &&& #[trigger] is_sorting::<Message>(found, order)
                    &&& all_views(r@) == picked(found, order)
                },
    {
        let mut out: Vec<Message> = Vec::new();
        assert(are_records(self.dotpath@, Seq::empty(), all_views(out@)));
        self.add_records(&mut out, cur, false, Ghost(Seq::empty()));
        let ghost old_files = readable(all_views(cur@), false);
        assert(Seq::empty() + old_files =~= old_files);
        self.add_records(&mut out, new, true, Ghost(old_files));
        let ghost found = all_views(out@);
        let order = sorted_order(&out);
        let r = reorder(out, &order);
        assert(is_sorting::<Message>(found, order@));
        r
    }
}

/// The messages at the given positions, in that order.
fn reorder(ms: Vec<Message>, order: &Vec<usize>) -> (r: Vec<Message>)
    requires
        is_permutation(order@, ms@.len()),
    ensures
        all_views(r@) == picked(all_views(ms@), order@),
{
    let ghost given = all_views(ms@);
    let n: usize = ms.len();
    let mut ms = ms;
    let mut slots: Vec<Option<Message>> = Vec::new();
    let mut rev: usize = 0;
    while rev < n
        invariant
            rev <= n,
            n == given.len(),
            ms@.len() == n - rev,
            slots@.len() == rev,
            forall|j: int| 0 <= j < ms@.len() ==> (#[trigger] ms@[j])@ == given[j],
            forall|j: int|
                0 <= j < rev ==> (#[trigger] slots@[j]) is Some && slots@[j]->0@ == given[n - 1
                    - j],
        decreases n - rev,
    {
        let m = ms.pop();
        slots.push(m);
        rev += 1;
    }
    let mut r: Vec<Message> = Vec::new();
    assert(picked(given, order@).take(0) =~= Seq::empty());
    for i in 0..n
        invariant
            n == given.len(),
            is_permutation(order@, n as nat),
            slots@.len() == n,
            all_views(r@) == picked(given, order@).take(i as int),
            forall|j: int|
                i <= j < n ==> (#[trigger] slots@[n - 1 - order@[j]]) is Some && slots@[n - 1
                    - order@[j]]->0@ == given[order@[j] as int],
    {
        let ghost was = all_views(r@);
        let k: usize = n - 1 - order[i];
        let m: Option<Message> = slots[k].take();
        assert(m is Some);
        if let Some(x) = m {
            r.push(x);
            assert(all_views(r@) =~= was.push(given[order@[i as int] as int]));
        }
        assert(picked(given, order@).take(i + 1) =~= picked(given, order@).take(i as int).push(
            given[order@[i as int] as int],
        ));
    }
    assert(picked(given, order@).take(n as int) =~= picked(given, order@));
    r
}

} // verus!
