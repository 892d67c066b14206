//! What the names of a folder look like.

use vstd::prelude::*;

use crate::namemap::{components, dotpath_with, dotted, imap_name, local_name, plain, undotted};
use crate::text::laws::law_join_grows;
use crate::text::{
    is_char, join, lemma_nonempty_all, lemma_split_by_len, lemma_split_concat, lemma_split_join,
    lemma_split_plain, nonempty, split,
};

verus! {

/// A folder at the top has its own name on the server, without the dot in front.
pub proof fn law_top_folder(name: Seq<char>, sep: char)
    requires
        plain(name, sep),
    ensures
        imap_name(seq!['.'] + name, sep) == name,
        local_name(name, sep) == seq!['.'] + name,
{
    let path = seq!['.'] + name;
    assert(!path.contains('/')) by {
        if path.contains('/') {
            let k = path.index_of('/');
            assert(name[k - 1] == '/');
        }
    }
    lemma_split_plain(path, '/');
    lemma_nonempty_all(seq![path]);
    assert(undotted(path) =~= name);
    assert(components(path) =~= seq![name]);
    law_join_grows(Seq::empty(), name, seq![sep]);
    lemma_split_plain(name, sep);
    lemma_nonempty_all(seq![name]);
    let parts = seq![name];
    assert(Seq::new(parts.len(), |i: int| dotted(parts[i])) =~= seq![path]);
    law_join_grows(Seq::empty(), path, seq!['/']);
}

/// A folder one level down has its parent's name on the server, then the separator and its
/// own name: dots and slashes separate folders on disk, the separator does on the server.
pub proof fn law_nested_folder(parent: Seq<char>, name: Seq<char>, sep: char)
    requires
        parent.len() > 0,
        parent.last() != '/',
        plain(name, sep),
    ensures
        imap_name(parent + seq!['/', '.'] + name, sep) == imap_name(parent, sep) + seq![sep] + name,
{
    reveal(Seq::filter);
    let own = seq!['.'] + name;
    let path = parent + seq!['/'] + own;
    assert(path =~= parent + seq!['/', '.'] + name);
    assert(!own.contains('/')) by {
        if own.contains('/') {
            let k = own.index_of('/');
            assert(name[k - 1] == '/');
        }
    }
    lemma_split_concat(parent, own, '/');
    lemma_split_plain(own, '/');
    let above = split(parent, '/');
    lemma_split_by_len(parent, is_char('/'));
    lemma_split_by_len(parent.drop_last(), is_char('/'));
    assert(above.last().len() > 0);
    let full = |x: Seq<char>| x.len() > 0;
    let all = above.push(own);
    assert(split(path, '/') =~= all);
    assert(all.drop_last() =~= above);
    assert(nonempty(all) == nonempty(above).push(own));
    assert(nonempty(above).len() > 0) by {
        assert(above.filter(full) == above.drop_last().filter(full).push(above.last()));
    }
    assert(undotted(own) =~= name);
    assert(components(path) =~= components(parent).push(name));
    law_join_grows(components(parent), name, seq![sep]);
}

/// And back: a mailbox one level down on the server lies in its parent's folder on disk,
/// under its own name with a dot in front.
pub proof fn law_nested_mailbox(parts: Seq<Seq<char>>, name: Seq<char>, sep: char)
    requires
        parts.len() > 0,
        forall|i: int| 0 <= i < parts.len() ==> plain(#[trigger] parts[i], sep),
        plain(name, sep),
    ensures
        local_name(join(parts.push(name), seq![sep]), sep) == local_name(
            join(parts, seq![sep]),
            sep,
        ) + seq!['/', '.'] + name,
{
    let more = parts.push(name);
    assert forall|i: int| 0 <= i < more.len() implies plain(#[trigger] more[i], sep) by {
        if i < parts.len() {
            assert(more[i] == parts[i]);
        }
    }
    lemma_split_join(parts, sep);
    lemma_split_join(more, sep);
    lemma_nonempty_all(parts);
    lemma_nonempty_all(more);
    let few = Seq::new(parts.len(), |i: int| dotted(parts[i]));
    let many = Seq::new(more.len(), |i: int| dotted(more[i]));
    assert(many =~= few.push(dotted(name)));
    law_join_grows(few, dotted(name), seq!['/']);
    assert(dotpath_with(more) =~= dotpath_with(parts) + seq!['/', '.'] + name);
}

} // verus!
