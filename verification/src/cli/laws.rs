//! What the commands select.

use vstd::prelude::*;

use crate::cli::{at_dotpath, not_excluded, taxonomy, total_messages, FolderSummary};
use crate::scan::FolderView;
use crate::suggest::{leaf_of, ExistingView};

verus! {

/// The folder is the one asked for.
pub open spec fn is_at(dotpath: Seq<char>) -> spec_fn(FolderView) -> bool {
    |f: FolderView| f.dotpath == dotpath
}

/// The folder is none of those.
pub open spec fn is_none_of(excluded: Seq<Seq<char>>) -> spec_fn(FolderView) -> bool {
    |f: FolderView| !excluded.contains(f.dotpath)
}

/// The folder is neither the inbox nor one of those.
pub open spec fn is_other(inbox: Seq<char>, excluded: Seq<Seq<char>>) -> spec_fn(FolderView) -> bool {
    |f: FolderView| f.dotpath != inbox && !excluded.contains(f.dotpath)
}

/// A folder as it can be reused.
pub open spec fn as_existing() -> spec_fn(FolderView) -> ExistingView {
    |f: FolderView| ExistingView { dotpath: f.dotpath, leaf: leaf_of(f.dotpath) }
}

/// Selecting keeps what is asked for, all of it and in order: the folders at a dotpath, the
/// folders that count, and the folders that mail can be sorted into.
pub proof fn law_selection(
    folders: Seq<FolderView>,
    dotpath: Seq<char>,
    excluded: Seq<Seq<char>>,
)
    ensures
        at_dotpath(folders, dotpath) == folders.filter(is_at(dotpath)),
        not_excluded(folders, excluded) == folders.filter(is_none_of(excluded)),
        taxonomy(folders, dotpath, excluded) == folders.filter(
            is_other(dotpath, excluded),
        ).map_values(as_existing()),
    decreases folders.len(),
{
    reveal(Seq::filter);
    if folders.len() > 0 {
        law_selection(folders.drop_last(), dotpath, excluded);
        assert(taxonomy(folders, dotpath, excluded) =~= folders.filter(
            is_other(dotpath, excluded),
        ).map_values(as_existing()));
    } else {
        assert(at_dotpath(folders, dotpath) =~= folders.filter(is_at(dotpath)));
        assert(not_excluded(folders, excluded) =~= folders.filter(is_none_of(excluded)));
        assert(taxonomy(folders, dotpath, excluded) =~= folders.filter(
            is_other(dotpath, excluded),
        ).map_values(as_existing()));
    }
}

/// The total is the sum of what the folders hold, whatever their order.
pub proof fn law_total_messages(a: Seq<FolderSummary>, f: FolderSummary, b: Seq<FolderSummary>)
    ensures
        total_messages(Seq::empty()) == 0,
        total_messages(a + seq![f] + b) == total_messages(a + b) + f.messages,
    decreases b.len(),
{
    if b.len() > 0 {
        let less = b.drop_last();
        law_total_messages(a, f, less);
        assert((a + seq![f] + b).drop_last() =~= a + seq![f] + less);
        assert((a + b).drop_last() =~= a + less);
    } else {
        assert((a + seq![f] + b).drop_last() =~= a + b);
        assert((a + seq![f] + b).last() == f);
    }
}

} // verus!
