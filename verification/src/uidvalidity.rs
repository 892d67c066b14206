//! Parsing of mbsync's per-folder `.uidvalidity` file (native scheme): two lines of ASCII
//! decimal, the UIDVALIDITY and the highest UID seen.
//!
//! The critical safety property elsewhere is that the first line (`validity`) must be
//! **unchanged** after a move: a change means mbsync forced a resync.

pub mod laws;

use vstd::prelude::*;

use crate::number::{
    all_digits, decimal, law_parse_decimal, lemma_decimal_value, parse_u32, parse_uint,
    parse_up_to, push_decimal,
};
use crate::text::{
    from_chars, is_white, join, lemma_split_join, lines, split_lines, strip_cr, texts, to_chars,
    trim, trimmed,
};

verus! {

/// The state of a folder.
#[derive(Debug, Clone, Copy, PartialEq, Eq, Structural)]
pub struct UidValidity {
    pub validity: u64,
    pub max_uid: u32,
}

/// Why a `.uidvalidity` file cannot be read.
#[derive(Debug, Clone, PartialEq, Eq)]
pub enum UidValidityError {
    /// The file has no first line.
    MissingValidity,
    /// A line that should be a number is not.
    Parse(String),
}

/// The view of a [`UidValidityError`].
#[verifier::ext_equal]
pub ghost enum UidErrorView {
    MissingValidity,
    Parse(Seq<char>),
}

impl View for UidValidityError {
    type V = UidErrorView;

    open spec fn view(&self) -> UidErrorView {
        match self {
            UidValidityError::MissingValidity => UidErrorView::MissingValidity,
            UidValidityError::Parse(text) => UidErrorView::Parse(text@),
        }
    }
}

impl UidValidityError {
    /// What to tell the user.
    pub fn to_string(&self) -> (r: String)
        ensures
            r@ == match self@ {
                UidErrorView::MissingValidity => "uidvalidity file missing the validity line"@,
                UidErrorView::Parse(text) => "could not parse uidvalidity number: "@ + text,
            },
    {
        match self {
            UidValidityError::MissingValidity => {
                "uidvalidity file missing the validity line".to_string()
            },
            UidValidityError::Parse(text) => {
                let mut r = "could not parse uidvalidity number: ".to_string();
                r.push_str(text);
                r
            },
        }
    }
}

/// What the contents of a `.uidvalidity` file mean. The first line is the validity; a
/// missing or blank second line counts as the UID zero.
pub open spec fn parsed(contents: Seq<char>) -> Result<UidValidity, UidErrorView> {
    let ls = lines(contents);
    if ls.len() == 0 {
        Err(UidErrorView::MissingValidity)
    } else {
        match parse_uint(trim(ls[0]), u64::MAX as nat) {
            None => Err(UidErrorView::Parse(trim(ls[0]))),
            Some(validity) => if ls.len() == 1 || trim(ls[1]).len() == 0 {
                Ok(UidValidity { validity: validity as u64, max_uid: 0 })
            } else {
                match parse_uint(trim(ls[1]), u32::MAX as nat) {
                    None => Err(UidErrorView::Parse(trim(ls[1]))),
                    Some(max_uid) => Ok(
                        UidValidity { validity: validity as u64, max_uid: max_uid as u32 },
                    ),
                }
            },
        }
    }
}

/// A result with the view of the error.
pub open spec fn viewed(r: Result<UidValidity, UidValidityError>) -> Result<
    UidValidity,
    UidErrorView,
> {
    match r {
        Ok(v) => Ok(v),
        Err(e) => Err(e@),
    }
}

/// The contents of a `.uidvalidity` file.
pub open spec fn contents_of(v: UidValidity) -> Seq<char> {
    decimal(v.validity as nat) + seq!['\n'] + decimal(v.max_uid as nat) + seq!['\n']
}

impl UidValidity {
    /// Parse the textual contents of a `.uidvalidity` file. A missing max-UID line is
    /// tolerated (treated as 0) since some folders are freshly created.
    pub fn parse(contents: &str) -> (r: Result<UidValidity, UidValidityError>)
        ensures
            viewed(r) == parsed(contents@),
    {
        let ls = split_lines(&to_chars(contents));
        let ghost want = lines(contents@);
        if ls.len() == 0 {
            return Err(UidValidityError::MissingValidity);
        }
        assert(want[0] == ls@[0]@);
        let first = trimmed(&ls[0]);
        let validity: u64 = match parse_up_to(first, u64::MAX) {
            Some(n) => n,
            None => {
                return Err(UidValidityError::Parse(from_chars(first)));
            },
        };
        if ls.len() == 1 {
            return Ok(UidValidity { validity, max_uid: 0 });
        }
        assert(want[1] == ls@[1]@);
        let second = trimmed(&ls[1]);
        if second.len() == 0 {
            return Ok(UidValidity { validity, max_uid: 0 });
        }
        match parse_u32(second) {
            Some(max_uid) => Ok(UidValidity { validity, max_uid }),
            None => Err(UidValidityError::Parse(from_chars(second))),
        }
    }

    /// The contents of a `.uidvalidity` file with this state.
    pub fn to_contents(&self) -> (r: String)
        ensures
            r@ == contents_of(*self),
    {
        let mut r = String::new();
        push_decimal(&mut r, self.validity);
        r.push('\n');
        push_decimal(&mut r, self.max_uid as u64);
        r.push('\n');
        assert(r@ =~= contents_of(*self));
        r
    }
}

/// The UIDVALIDITY of a folder before and after a sync, where it has one.
#[derive(Debug, Clone, PartialEq, Eq)]
pub struct FolderValidity {
    pub dotpath: String,
    pub before: Option<u64>,
    pub after: Option<u64>,
}

/// The sync forced a resync of the folder: it had a UIDVALIDITY, and has another.
pub open spec fn was_reset(f: FolderValidity) -> bool {
    f.before is Some && f.after is Some && f.before != f.after
}

/// The dotpaths of the folders that a sync forced a resync of, in order.
pub open spec fn resets(folders: Seq<FolderValidity>) -> Seq<Seq<char>>
    decreases folders.len(),
{
    if folders.len() == 0 {
        Seq::empty()
    } else {
        let some = resets(folders.drop_last());
        if was_reset(folders.last()) {
            some.push(folders.last().dotpath@)
        } else {
            some
        }
    }
}

/// The folders whose UIDVALIDITY changed. There must be none after a move: a change means
/// that mbsync forced a resync.
pub fn reset_folders(folders: &[FolderValidity]) -> (r: Vec<String>)
    ensures
        texts(r@) == resets(folders@),
{
    let mut r: Vec<String> = Vec::new();
    assert(texts(r@) =~= resets(folders@.take(0)));
    for i in 0..folders.len()
        invariant
            texts(r@) == resets(folders@.take(i as int)),
    {
        let ghost was = texts(r@);
        assert(folders@.take(i + 1).drop_last() =~= folders@.take(i as int));
        let reset = match (folders[i].before, folders[i].after) {
            (Some(a), Some(b)) => a != b,
            _ => false,
        };
        if reset {
            r.push(folders[i].dotpath.clone());
            assert(texts(r@) =~= was.push(folders@[i as int].dotpath@));
        }
    }
    assert(folders@.take(folders@.len() as int) =~= folders@);
    r
}

/// A decimal number is free of whitespace and line breaks, and not empty.
pub proof fn lemma_decimal_line(n: nat)
    ensures
        !decimal(n).contains('\n'),
        decimal(n).len() > 0,
        trim(decimal(n)) == decimal(n),
        strip_cr(decimal(n)) == decimal(n),
{
    lemma_decimal_value(n);
    let d = decimal(n);
    assert(all_digits(d));
    if d.contains('\n') {
        let i = d.index_of('\n');
        assert(d[i] == '\n');
    }
    assert(!is_white(d[0]));
    assert(!is_white(d.last()));
}

/// Reading back what was written: the contents written for a state parse into it.
pub proof fn law_contents_round_trip(v: UidValidity)
    ensures
        parsed(contents_of(v)) == Ok::<UidValidity, UidErrorView>(v),
{
    let a = decimal(v.validity as nat);
    let b = decimal(v.max_uid as nat);
    let none = Seq::<char>::empty();
    lemma_decimal_line(v.validity as nat);
    lemma_decimal_line(v.max_uid as nat);
    let parts = seq![a, b, none];
    let nl = seq!['\n'];
    assert(join(parts, nl) =~= contents_of(v)) by {
        let two = parts.drop_last();
        assert(two =~= seq![a, b]);
        let one = two.drop_last();
        assert(one =~= seq![a]);
        assert(join(one, nl) == a);
        assert(join(two, nl) == join(one, nl) + nl + b);
        assert(join(parts, nl) == join(two, nl) + nl + none);
    }
    assert forall|i: int| 0 <= i < parts.len() implies !(#[trigger] parts[i]).contains('\n') by {
        assert(parts[0] == a && parts[1] == b && parts[2] == none);
    }
    lemma_split_join(parts, '\n');
    let ended = parts.drop_last().map_values(|x: Seq<char>| strip_cr(x));
    assert(ended =~= seq![a, b]);
    assert(lines(contents_of(v)) =~= seq![a, b]);
    law_parse_decimal(v.validity as nat, u64::MAX as nat);
    law_parse_decimal(v.max_uid as nat, u32::MAX as nat);
}

} // verus!
