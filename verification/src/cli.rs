//! What the read-only commands print: the summary of a scan, and the suggestions for an
//! inbox.

pub mod laws;

use vstd::prelude::*;

use crate::error::Error;
use crate::model::{Cluster, ClusterView, Config, Message, Signal};
use crate::scan::{FolderRef, FolderView};
use crate::seqs::all_views;
use crate::suggest::laws::{law_no_message_counts_twice, total_count};
use crate::suggest::{is_scoring, leaf_of, suggest, suggests, ExistingFolder, ExistingView};
use crate::text::{holds_text, str_eq, texts};

verus! {

// ---- the account root ----

/// What is said of a root that was not given.
pub open spec fn no_root() -> Seq<char> {
    "no account root given: pass --root <maildir-dir> or set MAILUTIL_ROOT (the Maildir directory whose subdirectories are the folders)"@
}

/// The account root to use: the one given, which must be a directory.
pub fn account_root(root: Option<&str>, is_dir: bool) -> (r: Result<String, Error>)
    ensures
        match r {
            Ok(path) => root is Some && is_dir && path@ == root->0@,
            Err(e) => e@ == match root {
                None => no_root(),
                Some(path) => "account root is not a directory: "@ + path@,
            } && (root is None || !is_dir),
        },
{
    match root {
        None => Err(
            Error::new(
                "no account root given: pass --root <maildir-dir> or set MAILUTIL_ROOT (the Maildir directory whose subdirectories are the folders)".to_string(),
            ),
        ),
        Some(path) => {
            if is_dir {
                Ok(path.to_string())
            } else {
                let mut message = "account root is not a directory: ".to_string();
                message.push_str(path);
                Err(Error::new(message))
            }
        },
    }
}

// ---- scan ----

/// A folder and how many messages it holds.
#[derive(Debug, Clone, PartialEq, Eq)]
pub struct FolderSummary {
    pub dotpath: String,
    pub messages: usize,
}

/// What `scan` prints.
#[derive(Debug, Clone, PartialEq, Eq)]
pub struct ScanOutput {
    pub root: String,
    pub folder_count: usize,
    pub total_messages: usize,
    pub folders: Vec<FolderSummary>,
}

/// The folders at a dotpath.
pub open spec fn at_dotpath(folders: Seq<FolderView>, dotpath: Seq<char>) -> Seq<FolderView>
    decreases folders.len(),
{
    if folders.len() == 0 {
        Seq::empty()
    } else {
        let some = at_dotpath(folders.drop_last(), dotpath);
        if folders.last().dotpath == dotpath {
            some.push(folders.last())
        } else {
            some
        }
    }
}

/// The folders to summarize: those at the dotpath asked for, else all of them.
pub fn select_folders(folders: Vec<FolderRef>, wanted: Option<&str>) -> (r: Vec<FolderRef>)
    ensures
        all_views(r@) == match wanted {
            Some(dotpath) => at_dotpath(all_views(folders@), dotpath@),
            None => all_views(folders@),
        },
{
    let dotpath = match wanted {
        Some(dotpath) => dotpath,
        None => {
            return folders;
        },
    };
    let ghost all = all_views(folders@);
    let mut r: Vec<FolderRef> = Vec::new();
    assert(all_views(r@) =~= at_dotpath(all.take(0), dotpath@));
    for i in 0..folders.len()
        invariant
            all == all_views(folders@),
            all_views(r@) == at_dotpath(all.take(i as int), dotpath@),
    {
        let ghost was = all_views(r@);
        assert(all.take(i + 1).drop_last() =~= all.take(i as int));
        if str_eq(&folders[i].dotpath, dotpath) {
            r.push(folders[i].clone());
            assert(all_views(r@) =~= was.push(all[i as int]));
        }
    }
    assert(all.take(folders@.len() as int) =~= all);
    r
}

/// How many messages the folders hold together.
pub open spec fn total_messages(folders: Seq<FolderSummary>) -> nat
    decreases folders.len(),
{
    if folders.len() == 0 {
        0
    } else {
        total_messages(folders.drop_last()) + folders.last().messages as nat
    }
}

/// A part of the folders holds no more than all of them.
proof fn lemma_part(folders: Seq<FolderSummary>, n: int)
    requires
        0 <= n <= folders.len(),
    ensures
        total_messages(folders.take(n)) <= total_messages(folders),
    decreases folders.len(),
{
    if n < folders.len() {
        lemma_part(folders.drop_last(), n);
        assert(folders.drop_last().take(n) =~= folders.take(n));
    } else {
        assert(folders.take(n) =~= folders);
    }
}

/// The summary of a scan. The messages must be few enough to count.
pub fn scan_output(root: &str, folders: Vec<FolderSummary>) -> (r: ScanOutput)
    requires
        total_messages(folders@) <= usize::MAX,
    ensures
        r.root@ == root@,
        r.folder_count == folders@.len(),
        r.total_messages == total_messages(folders@),
        r.folders == folders,
{
    let mut total: usize = 0;
    for i in 0..folders.len()
        invariant
            total == total_messages(folders@.take(i as int)),
            total_messages(folders@) <= usize::MAX,
    {
        proof {
            lemma_part(folders@, i + 1);
            assert(folders@.take(i + 1).drop_last() =~= folders@.take(i as int));
        }
        total += folders[i].messages;
    }
    assert(folders@.take(folders@.len() as int) =~= folders@);
    ScanOutput {
        root: root.to_string(),
        folder_count: folders.len(),
        total_messages: total,
        folders,
    }
}

// ---- suggest ----

/// What `suggest` prints.
#[derive(Debug)]
pub struct SuggestOutput {
    pub root: String,
    pub inbox: String,
    pub inbox_messages: usize,
    pub clustered_messages: usize,
    pub clusters: Vec<Cluster>,
}

/// The folder at a dotpath, for reuse.
pub open spec fn reusable(dotpath: Seq<char>) -> ExistingView {
    ExistingView { dotpath, leaf: leaf_of(dotpath) }
}

/// The existing taxonomy: every folder except the inbox and the excluded ones, in order.
pub open spec fn taxonomy(
    folders: Seq<FolderView>,
    inbox: Seq<char>,
    excluded: Seq<Seq<char>>,
) -> Seq<ExistingView>
    decreases folders.len(),
{
    if folders.len() == 0 {
        Seq::empty()
    } else {
        let some = taxonomy(folders.drop_last(), inbox, excluded);
        let dotpath = folders.last().dotpath;
        if dotpath != inbox && !excluded.contains(dotpath) {
            some.push(reusable(dotpath))
        } else {
            some
        }
    }
}

/// The existing taxonomy: every folder except the inbox and the excluded ones.
pub fn existing_folders(
    folders: &[FolderRef],
    inbox: &str,
    excluded: &Vec<String>,
) -> (r: Vec<ExistingFolder>)
    ensures
        all_views(r@) == taxonomy(all_views(folders@), inbox@, texts(excluded@)),
{
    let ghost all = all_views(folders@);
    let mut r: Vec<ExistingFolder> = Vec::new();
    assert(all_views(r@) =~= taxonomy(all.take(0), inbox@, texts(excluded@)));
    for i in 0..folders.len()
        invariant
            all == all_views(folders@),
            all_views(r@) == taxonomy(all.take(i as int), inbox@, texts(excluded@)),
    {
        let ghost was = all_views(r@);
        assert(all.take(i + 1).drop_last() =~= all.take(i as int));
        let dotpath = &folders[i].dotpath;
        if !str_eq(dotpath, inbox) && !holds_text(excluded, dotpath) {
            r.push(ExistingFolder::new(dotpath));
            assert(all_views(r@) =~= was.push(reusable(dotpath@)));
        }
    }
    assert(all.take(folders@.len() as int) =~= all);
    r
}

/// The folders that are not excluded, in order.
pub open spec fn not_excluded(folders: Seq<FolderView>, excluded: Seq<Seq<char>>) -> Seq<FolderView>
    decreases folders.len(),
{
    if folders.len() == 0 {
        Seq::empty()
    } else {
        let some = not_excluded(folders.drop_last(), excluded);
        if !excluded.contains(folders.last().dotpath) {
            some.push(folders.last())
        } else {
            some
        }
    }
}

/// The folders whose messages count when it is checked that none is lost: every folder but
/// the excluded ones.
pub fn counted_folders(folders: &[FolderRef], excluded: &Vec<String>) -> (r: Vec<FolderRef>)
    ensures
        all_views(r@) == not_excluded(all_views(folders@), texts(excluded@)),
{
    let ghost all = all_views(folders@);
    let mut r: Vec<FolderRef> = Vec::new();
    assert(all_views(r@) =~= not_excluded(all.take(0), texts(excluded@)));
    for i in 0..folders.len()
        invariant
            all == all_views(folders@),
            all_views(r@) == not_excluded(all.take(i as int), texts(excluded@)),
    {
        let ghost was = all_views(r@);
        assert(all.take(i + 1).drop_last() =~= all.take(i as int));
        if !holds_text(excluded, &folders[i].dotpath) {
            r.push(folders[i].clone());
            assert(all_views(r@) =~= was.push(all[i as int]));
        }
    }
    assert(all.take(folders@.len() as int) =~= all);
    r
}

/// The clusters of the first `n` hold no more than all of them.
proof fn lemma_clusters_part(clusters: Seq<ClusterView>, n: int)
    requires
        0 <= n <= clusters.len(),
    ensures
        total_count(clusters.take(n)) <= total_count(clusters),
    decreases clusters.len(),
{
    if n < clusters.len() {
        lemma_clusters_part(clusters.drop_last(), n);
        assert(clusters.drop_last().take(n) =~= clusters.take(n));
    } else {
        assert(clusters.take(n) =~= clusters);
    }
}

/// The suggestions for the messages of an inbox, given all the folders of the account.
pub fn suggest_inbox<F: Fn(usize, Signal, bool) -> u64>(
    root: &str,
    inbox: &str,
    folders: &[FolderRef],
    messages: &[Message],
    config: &Config,
    score: F,
) -> (r: SuggestOutput)
    requires
        is_scoring(score),
    ensures
        r.root@ == root@,
        r.inbox@ == inbox@,
        r.inbox_messages == messages@.len(),
        suggests(
            all_views(r.clusters@),
            all_views(messages@),
            taxonomy(all_views(folders@), inbox@, config@.excluded_folders),
            config@,
            score,
        ),
        r.clustered_messages == total_count(all_views(r.clusters@)),
        r.clustered_messages <= r.inbox_messages,
{
    let existing = existing_folders(folders, inbox, &config.excluded_folders);
    let ghost known = all_views(existing@);
    let clusters = suggest(messages, &existing, config, score);
    let ghost all = all_views(clusters@);
    proof {
        law_no_message_counts_twice(all, all_views(messages@), known, config@, score);
    }
    let count: usize = messages.len();
    let mut clustered: usize = 0;
    assert(all.take(0) =~= Seq::empty());
    for i in 0..clusters.len()
        invariant
            all == all_views(clusters@),
            clustered == total_count(all.take(i as int)),
            total_count(all) <= count,
    {
        proof {
            lemma_clusters_part(all, i + 1);
            assert(all.take(i + 1).drop_last() =~= all.take(i as int));
            assert(all[i as int] == clusters@[i as int]@);
        }
        clustered += clusters[i].count;
    }
    assert(all.take(clusters@.len() as int) =~= all);
    SuggestOutput {
        root: root.to_string(),
        inbox: inbox.to_string(),
        inbox_messages: count,
        clustered_messages: clustered,
        clusters,
    }
}

} // verus!
