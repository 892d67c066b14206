//! What a `.uidvalidity` file says.

use vstd::prelude::*;

use crate::filename::lemma_decimal_plain;
use crate::number::laws::law_decimal;
use crate::number::{decimal, law_parse_decimal};
use crate::text::laws::{law_lines, law_trim};
use crate::text::{lines, trim};
use crate::uidvalidity::{
    contents_of, law_contents_round_trip, lemma_decimal_line, parsed, resets, FolderValidity,
    UidErrorView, UidValidity,
};

verus! {

/// The first line is the validity, the second the greatest UID, both in decimal; without a
/// second line, or with a blank one, the greatest UID is zero. An empty file says nothing.
pub proof fn law_lines_of_state(validity: u64, max_uid: u32)
    ensures
        parsed(decimal(validity as nat) + seq!['\n'] + decimal(max_uid as nat) + seq!['\n'])
            == Ok::<UidValidity, UidErrorView>(UidValidity { validity, max_uid }),
        parsed(decimal(validity as nat)) == Ok::<UidValidity, UidErrorView>(
            UidValidity { validity, max_uid: 0 },
        ),
        parsed(decimal(validity as nat) + seq!['\n']) == Ok::<UidValidity, UidErrorView>(
            UidValidity { validity, max_uid: 0 },
        ),
        parsed(Seq::empty()) == Err::<UidValidity, UidErrorView>(UidErrorView::MissingValidity),
{
    let v = UidValidity { validity, max_uid };
    law_contents_round_trip(v);
    assert(contents_of(v) =~= decimal(validity as nat) + seq!['\n'] + decimal(max_uid as nat)
        + seq!['\n']);
    lemma_decimal_line(validity as nat);
    let d = decimal(validity as nat);
    let none = Seq::<char>::empty();
    lemma_decimal_plain(validity as nat, '\n');
    law_decimal(validity as nat);
    law_lines(d, none);
    assert(d + seq!['\n'] + none =~= d + seq!['\n']);
    law_parse_decimal(validity as nat, u64::MAX as nat);
}

/// A first line that is no number is an error that tells it, trimmed; so is a second line
/// that is neither a number nor blank.
pub proof fn law_bad_lines_told(validity: u64, bad: Seq<char>)
    requires
        !bad.contains('\n'),
        trim(bad).len() > 0,
        trim(bad)[0] != '+',
        !(48 <= trim(bad)[0] as int <= 57),
        bad.last() != '\r',
    ensures
        parsed(bad) == Err::<UidValidity, UidErrorView>(UidErrorView::Parse(trim(bad))),
        parsed(decimal(validity as nat) + seq!['\n'] + bad) == Err::<UidValidity, UidErrorView>(
            UidErrorView::Parse(trim(bad)),
        ),
{
    let d = decimal(validity as nat);
    if bad.len() == 0 {
        law_trim(bad, bad, bad);
        assert(bad + bad + bad =~= bad);
    }
    law_lines(bad, Seq::empty());
    lemma_decimal_line(validity as nat);
    lemma_decimal_plain(validity as nat, '\n');
    law_decimal(validity as nat);
    law_lines(d, bad);
    assert(lines(d + seq!['\n'] + bad) =~= seq![d, bad]);
    law_parse_decimal(validity as nat, u64::MAX as nat);
}

/// The folder had a UIDVALIDITY before and has another after.
pub open spec fn changed() -> spec_fn(FolderValidity) -> bool {
    |f: FolderValidity|
        match (f.before, f.after) {
            (Some(a), Some(b)) => a != b,
            _ => false,
        }
}

/// The folders that were reset are those whose UIDVALIDITY changed, all of them and in
/// order.
pub proof fn law_resets(folders: Seq<FolderValidity>)
    ensures
        resets(folders) == folders.filter(changed()).map_values(|f: FolderValidity| f.dotpath@),
    decreases folders.len(),
{
    reveal(Seq::filter);
    let name = |f: FolderValidity| f.dotpath@;
    if folders.len() > 0 {
        let less = folders.drop_last();
        law_resets(less);
        assert(resets(folders) =~= folders.filter(changed()).map_values(name));
    } else {
        assert(resets(folders) =~= folders.filter(changed()).map_values(name));
    }
}

} // verus!
