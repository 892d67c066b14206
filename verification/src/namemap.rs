//! Translate a folder among its three names:
//!
//! - **local dotpath**: how the folder appears on disk under the account root, each
//!   hierarchy level a `.`-prefixed directory, nested with `/`, e.g. `.lists/.elixir`.
//! - **IMAP mailbox name**: hierarchy levels joined by the server's *hierarchy
//!   separator*, e.g. `lists.elixir` (separator `.`) or `lists/elixir` (separator `/`).
//! - **sieve `fileinto` target**: identical to the IMAP mailbox name.
//!
//! The separator varies by server, so it is a parameter here. Like Maildir++ itself, this
//! assumes that a folder-name component never contains the separator character.

pub mod laws;

use vstd::prelude::*;
use vstd::string::StrSliceExecFns;

use crate::text::{
    append_chars, from_chars, is_char, join, joined, lemma_nonempty_all, lemma_split_join, nonempty,
    split, split_by, split_chars, to_chars, views,
};

verus! {

/// A folder-name translator bound to one IMAP hierarchy separator.
#[derive(Debug, Clone, Copy)]
pub struct NameMap {
    sep: char,
}

/// A path segment without its leading dot.
pub open spec fn undotted(segment: Seq<char>) -> Seq<char> {
    if segment.len() > 0 && segment[0] == '.' {
        segment.skip(1)
    } else {
        segment
    }
}

/// A path segment with a leading dot.
pub open spec fn dotted(component: Seq<char>) -> Seq<char> {
    seq!['.'] + component
}

/// The hierarchy components of a dotpath: its nonempty segments, undotted.
pub open spec fn components(dotpath: Seq<char>) -> Seq<Seq<char>> {
    let segments = nonempty(split(dotpath, '/'));
    Seq::new(segments.len(), |i: int| undotted(segments[i]))
}

/// The IMAP name of a dotpath.
pub open spec fn imap_name(dotpath: Seq<char>, sep: char) -> Seq<char> {
    join(components(dotpath), seq![sep])
}

/// The dotpath with the given components.
pub open spec fn dotpath_with(parts: Seq<Seq<char>>) -> Seq<char> {
    join(Seq::new(parts.len(), |i: int| dotted(parts[i])), seq!['/'])
}

/// The dotpath of an IMAP name.
pub open spec fn local_name(imap: Seq<char>, sep: char) -> Seq<char> {
    dotpath_with(nonempty(split(imap, sep)))
}

impl NameMap {
    /// The hierarchy separator.
    pub closed spec fn sep(&self) -> char {
        self.sep
    }

    /// Create a translator for the given IMAP hierarchy separator (commonly `.` or `/`).
    pub fn new(sep: char) -> (r: NameMap)
        ensures
            r.sep() == sep,
    {
        NameMap { sep }
    }

    /// The IMAP hierarchy separator.
    pub fn separator(&self) -> (r: char)
        ensures
            r == self.sep(),
    {
        self.sep
    }

    /// Split a local dotpath into its hierarchy components, stripping the leading `.`
    /// of each level. `.lists/.elixir` -> `["lists", "elixir"]`, `.INBOX` -> `["INBOX"]`.
    pub fn dotpath_components(dotpath: &str) -> (r: Vec<&str>)
        ensures
            Seq::new(r@.len(), |i: int| r@[i]@) == components(dotpath@),
    {
        let chars = to_chars(dotpath);
        let n: usize = chars.len();
        let ghost p = is_char('/');
        let ghost mut done: Seq<Seq<char>> = Seq::empty();
        let mut r: Vec<&str> = Vec::new();
        let mut start: usize = 0;
        proof {
            reveal(Seq::filter);
            assert(dotpath@.take(0) =~= Seq::empty());
            assert(dotpath@.subrange(0, 0) =~= Seq::empty());
            assert(done.push(Seq::empty()) =~= seq![Seq::<char>::empty()]);
            assert(nonempty(done) =~= Seq::empty());
        }
        let mut i: usize = 0;
        while i < n
            invariant
                p == is_char('/'),
                chars@ == dotpath@,
                n == chars@.len(),
                start <= i <= n,
                done.push(dotpath@.subrange(start as int, i as int)) == split_by(
                    dotpath@.take(i as int),
                    p,
                ),
                r@.len() == nonempty(done).len(),
                forall|j: int|
                    0 <= j < r@.len() ==> (#[trigger] r@[j])@ == undotted(nonempty(done)[j]),
            decreases n - i,
        {
            let ghost piece = dotpath@.subrange(start as int, i as int);
            let ghost before = done.push(piece);
            proof {
                assert(dotpath@.take(i + 1).drop_last() =~= dotpath@.take(i as int));
                assert(before.drop_last() =~= done);
            }
            if chars[i] == '/' {
                let ghost was = r@;
                Self::push_component(dotpath, &chars, start, i, &mut r);
                proof {
                    lemma_nonempty_push(done, piece);
                    let kept = nonempty(done);
                    done = done.push(piece);
                    assert forall|j: int| 0 <= j < r@.len() implies (#[trigger] r@[j])@ == undotted(
                        nonempty(done)[j],
                    ) by {
                        if j < was.len() {
                            assert(r@[j] == was[j]);
                            assert(nonempty(done)[j] == kept[j]);
                        }
                    }
                    assert(dotpath@.subrange(i + 1, i + 1) =~= Seq::empty());
                }
                start = i + 1;
            } else {
                assert(dotpath@.subrange(start as int, i + 1) =~= piece.push(dotpath@[i as int]));
            }
            i += 1;
        }
        let ghost was = r@;
        Self::push_component(dotpath, &chars, start, n, &mut r);
        proof {
            let piece = dotpath@.subrange(start as int, n as int);
            lemma_nonempty_push(done, piece);
            let kept = nonempty(done.push(piece));
            assert forall|j: int| 0 <= j < r@.len() implies (#[trigger] r@[j])@ == undotted(
                kept[j],
            ) by {
                if j < was.len() {
                    assert(r@[j] == was[j]);
                    assert(kept[j] == nonempty(done)[j]);
                }
            }
            assert(dotpath@.take(n as int) =~= dotpath@);
            assert(done.push(piece) == split(dotpath@, '/'));
            assert(Seq::new(r@.len(), |k: int| r@[k]@) =~= components(dotpath@));
        }
        r
    }

    /// Add the segment between two positions, undotted, if it is not empty.
    fn push_component<'a>(
        dotpath: &'a str,
        chars: &Vec<char>,
        start: usize,
        end: usize,
        r: &mut Vec<&'a str>,
    )
        requires
            chars@ == dotpath@,
            start <= end <= dotpath@.len(),
        ensures
            start == end ==> final(r)@ == old(r)@,
            start < end ==> {
                &&& final(r)@.len() == old(r)@.len() + 1
                &&& forall|j: int| 0 <= j < old(r)@.len() ==> #[trigger] final(r)@[j] == old(r)@[j]
                &&& final(r)@.last()@ == undotted(dotpath@.subrange(start as int, end as int))
            },
    {
        if start < end {
            let from: usize = if chars[start] == '.' {
                start + 1
            } else {
                start
            };
            let ghost piece = dotpath@.subrange(start as int, end as int);
            assert(piece[0] == dotpath@[start as int]);
            assert(undotted(piece) =~= dotpath@.subrange(from as int, end as int));
            r.push(dotpath.substring_char(from, end));
        }
    }

    /// Convert a local dotpath to the IMAP mailbox name.
    pub fn dotpath_to_imap(&self, dotpath: &str) -> (r: String)
        ensures
            r@ == imap_name(dotpath@, self.sep()),
    {
        let parts = Self::dotpath_components(dotpath);
        let mut pieces: Vec<Vec<char>> = Vec::new();
        for i in 0..parts.len()
            invariant
                pieces@.len() == i,
                forall|j: int| 0 <= j < i ==> (#[trigger] pieces@[j])@ == parts@[j]@,
        {
            pieces.push(to_chars(parts[i]));
        }
        assert(views(pieces@) =~= components(dotpath@)) by {
            assert forall|j: int| 0 <= j < parts@.len() implies (#[trigger] parts@[j])@
                == components(dotpath@)[j] by {
                assert(Seq::new(parts@.len(), |i: int| parts@[i]@)[j] == parts@[j]@);
            }
        }
        let sep = [self.sep];
        assert(sep@ =~= seq![self.sep]);
        from_chars(&joined(&pieces, &sep))
    }

    /// The sieve `fileinto` target for a dotpath: the IMAP mailbox name.
    pub fn dotpath_to_sieve(&self, dotpath: &str) -> (r: String)
        ensures
            r@ == imap_name(dotpath@, self.sep()),
    {
        self.dotpath_to_imap(dotpath)
    }

    /// Convert an IMAP mailbox name back to a local dotpath.
    pub fn imap_to_dotpath(&self, imap: &str) -> (r: String)
        ensures
            r@ == local_name(imap@, self.sep()),
    {
        let pieces = split_chars(&to_chars(imap), self.sep);
        let ghost all = split(imap@, self.sep);
        let mut parts: Vec<Vec<char>> = Vec::new();
        proof {
            reveal(Seq::filter);
            assert(nonempty(all.take(0)) =~= Seq::empty());
        }
        for i in 0..pieces.len()
            invariant
                views(pieces@) == all,
                parts@.len() == nonempty(all.take(i as int)).len(),
                forall|j: int|
                    0 <= j < parts@.len() ==> (#[trigger] parts@[j])@ == dotted(
                        nonempty(all.take(i as int))[j],
                    ),
        {
            proof {
                assert(all[i as int] == pieces@[i as int]@);
                assert(all.take(i + 1) =~= all.take(i as int).push(all[i as int]));
                lemma_nonempty_push(all.take(i as int), all[i as int]);
            }
            if pieces[i].len() > 0 {
                let mut part: Vec<char> = Vec::new();
                part.push('.');
                append_chars(&mut part, &pieces[i]);
                assert(part@ =~= dotted(all[i as int]));
                parts.push(part);
            }
        }
        proof {
            assert(all.take(pieces@.len() as int) =~= all);
            let kept = nonempty(all);
            assert(views(parts@) =~= Seq::new(kept.len(), |i: int| dotted(kept[i])));
        }
        let slash = ['/'];
        assert(slash@ =~= seq!['/']);
        from_chars(&joined(&parts, &slash))
    }
}

/// One piece more is kept if it is not empty.
proof fn lemma_nonempty_push(pieces: Seq<Seq<char>>, piece: Seq<char>)
    ensures
        nonempty(pieces.push(piece)) == if piece.len() > 0 {
            nonempty(pieces).push(piece)
        } else {
            nonempty(pieces)
        },
{
    reveal(Seq::filter);
    assert(pieces.push(piece).drop_last() =~= pieces);
}

/// A component that can stand in a folder name: not empty, and free of `/` and of the
/// hierarchy separator.
pub open spec fn plain(component: Seq<char>, sep: char) -> bool {
    component.len() > 0 && !component.contains('/') && !component.contains(sep)
}

/// The three names of a folder round-trip: for plain components, the IMAP name of their
/// dotpath is the components joined by the separator, and the dotpath of that IMAP name
/// is the dotpath again.
pub proof fn law_names_round_trip(parts: Seq<Seq<char>>, sep: char)
    requires
        forall|i: int| 0 <= i < parts.len() ==> plain(#[trigger] parts[i], sep),
    ensures
        components(dotpath_with(parts)) == parts,
        imap_name(dotpath_with(parts), sep) == join(parts, seq![sep]),
        local_name(imap_name(dotpath_with(parts), sep), sep) == dotpath_with(parts),
{
    let segments = Seq::new(parts.len(), |i: int| dotted(parts[i]));
    if parts.len() == 0 {
        reveal(Seq::filter);
        assert(segments =~= Seq::empty());
        let none = Seq::<char>::empty();
        let lone = seq![none];
        assert(split(none, '/') =~= lone && split(none, sep) =~= lone);
        assert(Seq::<Seq<char>>::empty().push(none) =~= lone);
        lemma_nonempty_push(Seq::empty(), none);
        assert(nonempty(Seq::empty()) =~= Seq::<Seq<char>>::empty());
        assert(components(none) =~= parts);
        assert(Seq::new(0, |i: int| dotted(nonempty(lone)[i])) =~= segments);
    } else {
        assert forall|i: int| 0 <= i < segments.len() implies !(#[trigger] segments[i]).contains(
            '/',
        ) && segments[i].len() > 0 && undotted(segments[i]) == parts[i] by {
            assert(plain(parts[i], sep));
            if segments[i].contains('/') {
                let k = segments[i].index_of('/');
                assert(segments[i][k] == '/');
                assert(k > 0);
                assert(parts[i][k - 1] == '/');
            }
            assert(segments[i].skip(1) =~= parts[i]);
        }
        lemma_split_join(segments, '/');
        lemma_nonempty_all(segments);
        assert(components(dotpath_with(parts)) =~= parts);
        assert forall|i: int| 0 <= i < parts.len() implies !(#[trigger] parts[i]).contains(sep)
            && parts[i].len() > 0 by {
            assert(plain(parts[i], sep));
        }
        lemma_split_join(parts, sep);
        lemma_nonempty_all(parts);
    }
}

} // verus!
