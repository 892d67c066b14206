//! What the standard configuration is, and where a destination lies.

use vstd::prelude::*;

use crate::model::{ConfigView, DestinationView, HeadersView, Signal, ZERO_SCORE};
use crate::text::laws::law_cut;

verus! {

/// A folder that holds what was thrown away, is junk, or is not finished.
pub open spec fn is_special(dotpath: Seq<char>) -> bool {
    ||| dotpath == ".Trash"@ || dotpath == ".trash"@
    ||| dotpath == ".Junk"@ || dotpath == ".junk"@
    ||| dotpath == ".Spam"@ || dotpath == ".spam"@
    ||| dotpath == ".Deleted Messages"@
    ||| dotpath == ".Drafts"@ || dotpath == ".drafts"@
}

/// By default, clusters of five messages are suggested whatever their score, exactly the
/// special folders are excluded, and no domain is a work domain.
pub proof fn law_standard_config(dotpath: Seq<char>)
    ensures
        ConfigView::standard().min_count == 5,
        ConfigView::standard().min_score == ZERO_SCORE,
        ConfigView::standard().work_domains.len() == 0,
        ConfigView::standard().excluded_folders.contains(dotpath) <==> is_special(dotpath),
{
    let all = ConfigView::standard().excluded_folders;
    assert(all.len() == 9);
    if is_special(dotpath) {
        assert(
            dotpath == all[0] || dotpath == all[1] || dotpath == all[2] || dotpath == all[3]
                || dotpath == all[4] || dotpath == all[5] || dotpath == all[6] || dotpath == all[7]
                || dotpath == all[8]
        );
    }
    if all.contains(dotpath) {
        let i = all.index_of(dotpath);
        assert(i == 0 || i == 1 || i == 2 || i == 3 || i == 4 || i == 5 || i == 6 || i == 7 || i
            == 8);
    }
}

/// The path of a destination is that of its folder, be it there or new.
pub proof fn law_destination_path(dotpath: Seq<char>)
    ensures
        (DestinationView::Existing { dotpath }).path() == dotpath,
        (DestinationView::New { dotpath }).path() == dotpath,
{
}

/// The domain of a sender is what follows the last `@` of the address.
pub proof fn law_from_domain(h: HeadersView, local: Seq<char>, domain: Seq<char>)
    requires
        !domain.contains('@'),
    ensures
        h.from_addr == Some(local + seq!['@'] + domain) ==> h.from_domain() == Some(domain),
        h.from_addr is None ==> h.from_domain() is None,
{
    law_cut(local, domain, '@');
}

/// A list is the strongest signal, a sender's domain the next, a person's address the
/// weakest.
pub proof fn law_signal_strength()
    ensures
        Signal::ListId.tenths() == 10,
        Signal::ListId.tenths() > Signal::SenderDomain.tenths(),
        Signal::SenderDomain.tenths() > Signal::PersonAddress.tenths(),
        Signal::PersonAddress.tenths() > 0,
{
}

} // verus!
