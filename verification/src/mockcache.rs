//! A builder of synthetic caches: what a Maildir tree in mbsync's native scheme holds, so
//! that the rest of the code can run against one unmodified.
//!
//! Files are named `<secs>.<seq>_<uid>.mock,U=<uid>:2,<flags>`, each folder has
//! `cur/new/tmp` and a `.uidvalidity`, and nested folders (`.lists/.elixir`) are real
//! nested directories. The builder says which directories and files there are to be; the
//! caller writes them.

pub mod laws;

use vstd::prelude::*;

use crate::filename::{
    law_name_round_trip, lemma_decimal_plain, parsed, uid_mark, MaildirName, NameView,
};
use crate::number::{decimal, push_decimal};
use crate::scan::{join_path, path_join};
use crate::text::{lemma_rfind, occurs_at, opt_text};
use crate::uidvalidity::{contents_of, UidValidity};

verus! {

/// Fixed epoch used for all synthetic filenames, so that they are deterministic.
pub const MOCK_SECS: u64 = 1_700_000_000;

/// A file to be written.
#[derive(Debug, Clone, PartialEq, Eq)]
pub struct MockFile {
    pub path: String,
    pub contents: String,
}

/// What makes a folder: its directories, and its `.uidvalidity` file, to be written where
/// there is none.
#[derive(Debug, Clone, PartialEq, Eq)]
pub struct MockFolder {
    pub dirs: Vec<String>,
    pub uidvalidity: MockFile,
}

/// A message that is written: its filename, and the file.
#[derive(Debug, Clone, PartialEq, Eq)]
pub struct MockMessage {
    pub filename: String,
    pub file: MockFile,
}

/// A synthetic cache below an account root.
#[derive(Debug, Clone, PartialEq, Eq)]
pub struct MockCache {
    pub root: String,
    /// Number of messages written so far.
    pub seq: u64,
}

/// A message in the making.
#[derive(Debug, Clone, PartialEq, Eq)]
pub struct MsgBuilder {
    pub folder: String,
    pub uid: Option<u32>,
    pub from: String,
    pub from_name: Option<String>,
    pub list_id: Option<String>,
    pub subject: String,
    pub message_id: Option<String>,
    pub extra_headers: Vec<(String, String)>,
    pub flags: String,
    pub is_new: bool,
}

/// The view of a [`MsgBuilder`].
#[verifier::ext_equal]
pub ghost struct MsgView {
    pub folder: Seq<char>,
    pub uid: Option<u32>,
    pub from: Seq<char>,
    pub from_name: Option<Seq<char>>,
    pub list_id: Option<Seq<char>>,
    pub subject: Seq<char>,
    pub message_id: Option<Seq<char>>,
    pub extra_headers: Seq<(Seq<char>, Seq<char>)>,
    pub flags: Seq<char>,
    pub is_new: bool,
}

/// The views of pairs of texts.
pub open spec fn text_pairs(s: Seq<(String, String)>) -> Seq<(Seq<char>, Seq<char>)> {
    Seq::new(s.len(), |i: int| (s[i].0@, s[i].1@))
}

impl View for MsgBuilder {
    type V = MsgView;

    open spec fn view(&self) -> MsgView {
        MsgView {
            folder: self.folder@,
            uid: self.uid,
            from: self.from@,
            from_name: opt_text(self.from_name),
            list_id: opt_text(self.list_id),
            subject: self.subject@,
            message_id: opt_text(self.message_id),
            extra_headers: text_pairs(self.extra_headers@),
            flags: self.flags@,
            is_new: self.is_new,
        }
    }
}

/// A header line.
pub open spec fn header_line(name: Seq<char>, value: Seq<char>) -> Seq<char> {
    name + ": "@ + value + "\r\n"@
}

/// The header lines for pairs of name and value.
pub open spec fn header_lines(pairs: Seq<(Seq<char>, Seq<char>)>) -> Seq<char>
    decreases pairs.len(),
{
    if pairs.len() == 0 {
        Seq::empty()
    } else {
        header_lines(pairs.drop_last()) + header_line(pairs.last().0, pairs.last().1)
    }
}

/// A text in angle brackets.
pub open spec fn bracketed(s: Seq<char>) -> Seq<char> {
    "<"@ + s + ">"@
}

impl MsgView {
    /// A message with nothing set but its folder.
    pub open spec fn plain(folder: Seq<char>) -> MsgView {
        MsgView {
            folder,
            uid: None,
            from: "someone@example.com"@,
            from_name: None,
            list_id: None,
            subject: "test message"@,
            message_id: None,
            extra_headers: Seq::empty(),
            flags: "S"@,
            is_new: false,
        }
    }

    /// The sender as the header has it.
    pub open spec fn sender(self) -> Seq<char> {
        match self.from_name {
            Some(name) => name + " "@ + bracketed(self.from),
            None => self.from,
        }
    }

    /// The Message-ID: the one that was set, else one made from the sequence number.
    pub open spec fn id(self, seq_no: u64) -> Seq<char> {
        match self.message_id {
            Some(id) => id,
            None => "mock-"@ + decimal(seq_no as nat) + "@example.com"@,
        }
    }

    /// The headers of a mailing list, where the message is from one.
    pub open spec fn list_headers(self) -> Seq<char> {
        match self.list_id {
            Some(id) => header_line("List-Id"@, bracketed(id)) + header_line(
                "List-Unsubscribe"@,
                bracketed("mailto:unsub@example.com"@),
            ),
            None => Seq::empty(),
        }
    }

    /// The text of the message.
    pub open spec fn text(self, seq_no: u64) -> Seq<char> {
        header_line("From"@, self.sender()) + header_line("Subject"@, self.subject) + header_line(
            "Message-ID"@,
            bracketed(self.id(seq_no)),
        ) + self.list_headers() + header_lines(self.extra_headers) + "\r\n"@
            + "This is a mock message body.\r\n"@
    }

    /// The parts of the filename.
    pub open spec fn name(self, seq_no: u64) -> NameView {
        NameView {
            base: mock_base(
                seq_no,
                match self.uid {
                    Some(uid) => uid as u64,
                    None => seq_no,
                },
            ),
            uid: self.uid,
            flags: self.flags,
        }
    }

    /// Where the file goes.
    pub open spec fn path(self, root: Seq<char>, seq_no: u64) -> Seq<char> {
        let sub = if self.is_new {
            "new"@
        } else {
            "cur"@
        };
        path_join(path_join(path_join(root, self.folder), sub), self.name(seq_no).rendered())
    }
}

/// The unique part of a synthetic filename.
pub open spec fn mock_base(seq_no: u64, mark: u64) -> Seq<char> {
    decimal(MOCK_SECS as nat) + seq!['.'] + decimal(seq_no as nat) + seq!['_'] + decimal(
        mark as nat,
    ) + seq!['.', 'm', 'o', 'c', 'k']
}

/// A `.uidvalidity` file below a root.
pub open spec fn uidvalidity_path(root: Seq<char>, dotpath: Seq<char>) -> Seq<char> {
    path_join(path_join(root, dotpath), ".uidvalidity"@)
}

/// Append a header line.
fn push_header(raw: &mut String, name: &str, value: &str)
    ensures
        final(raw)@ == old(raw)@ + header_line(name@, value@),
{
    raw.push_str(name);
    raw.push_str(": ");
    raw.push_str(value);
    raw.push_str("\r\n");
    assert(raw@ =~= old(raw)@ + header_line(name@, value@));
}

/// A text in angle brackets.
fn in_brackets(s: &str) -> (r: String)
    ensures
        r@ == bracketed(s@),
{
    let mut r = "<".to_string();
    r.push_str(s);
    r.push_str(">");
    r
}

impl MockCache {
    /// A cache whose account root is `root`.
    pub fn new(root: &str) -> (r: MockCache)
        ensures
            r.root@ == root@,
            r.seq == 0,
    {
        MockCache { root: root.to_string(), seq: 0 }
    }

    /// Account root directory.
    pub fn root(&self) -> (r: &str)
        ensures
            r@ == self.root@,
    {
        self.root.as_str()
    }

    /// What makes the folder at `dotpath` (cur/new/tmp and a default `.uidvalidity`).
    pub fn folder(&self, dotpath: &str) -> (r: MockFolder)
        ensures
            r.dirs@.len() == 3,
            r.dirs@[0]@ == path_join(path_join(self.root@, dotpath@), "cur"@),
            r.dirs@[1]@ == path_join(path_join(self.root@, dotpath@), "new"@),
            r.dirs@[2]@ == path_join(path_join(self.root@, dotpath@), "tmp"@),
            r.uidvalidity.path@ == uidvalidity_path(self.root@, dotpath@),
            r.uidvalidity.contents@ == contents_of(
                (UidValidity { validity: MOCK_SECS, max_uid: 0 }),
            ),
    {
        let dir = join_path(&self.root, dotpath);
        MockFolder {
            dirs: vec![join_path(&dir, "cur"), join_path(&dir, "new"), join_path(&dir, "tmp")],
            uidvalidity: self.set_uidvalidity(dotpath, MOCK_SECS, 0),
        }
    }

    /// A folder's `.uidvalidity` with the given values (to test stability checks).
    pub fn set_uidvalidity(&self, dotpath: &str, validity: u64, max_uid: u32) -> (r: MockFile)
        ensures
            r.path@ == uidvalidity_path(self.root@, dotpath@),
            r.contents@ == contents_of((UidValidity { validity, max_uid })),
    {
        MockFile {
            path: join_path(&join_path(&self.root, dotpath), ".uidvalidity"),
            contents: UidValidity { validity, max_uid }.to_contents(),
        }
    }

    /// Start building a message in `dotpath`.
    pub fn message(&self, dotpath: &str) -> (r: MsgBuilder)
        ensures
            r@ == MsgView::plain(dotpath@),
    {
        let r = MsgBuilder {
            folder: dotpath.to_string(),
            uid: None,
            from: "someone@example.com".to_string(),
            from_name: None,
            list_id: None,
            subject: "test message".to_string(),
            message_id: None,
            extra_headers: Vec::new(),
            flags: "S".to_string(),
            is_new: false,
        };
        assert(r@.extra_headers =~= Seq::empty());
        r
    }
}

impl MsgBuilder {
    /// Set the native UID (embedded as `,U=<uid>`). Omit to simulate a fresh local file.
    pub fn uid(self, uid: u32) -> (r: MsgBuilder)
        ensures
            r@ == (MsgView { uid: Some(uid), ..self@ }),
    {
        MsgBuilder { uid: Some(uid), ..self }
    }

    pub fn from(self, addr: &str) -> (r: MsgBuilder)
        ensures
            r@ == (MsgView { from: addr@, ..self@ }),
    {
        MsgBuilder { from: addr.to_string(), ..self }
    }

    pub fn from_name(self, name: &str) -> (r: MsgBuilder)
        ensures
            r@ == (MsgView { from_name: Some(name@), ..self@ }),
    {
        MsgBuilder { from_name: Some(name.to_string()), ..self }
    }

    pub fn list_id(self, id: &str) -> (r: MsgBuilder)
        ensures
            r@ == (MsgView { list_id: Some(id@), ..self@ }),
    {
        MsgBuilder { list_id: Some(id.to_string()), ..self }
    }

    pub fn subject(self, s: &str) -> (r: MsgBuilder)
        ensures
            r@ == (MsgView { subject: s@, ..self@ }),
    {
        MsgBuilder { subject: s.to_string(), ..self }
    }

    pub fn message_id(self, id: &str) -> (r: MsgBuilder)
        ensures
            r@ == (MsgView { message_id: Some(id@), ..self@ }),
    {
        MsgBuilder { message_id: Some(id.to_string()), ..self }
    }

    /// Add a header line.
    pub fn header(self, name: &str, value: &str) -> (r: MsgBuilder)
        ensures
            r@ == (MsgView { extra_headers: self@.extra_headers.push((name@, value@)), ..self@ }),
    {
        let mut r = self;
        r.extra_headers.push((name.to_string(), value.to_string()));
        assert(r@.extra_headers =~= self@.extra_headers.push((name@, value@)));
        r
    }

    pub fn flags(self, flags: &str) -> (r: MsgBuilder)
        ensures
            r@ == (MsgView { flags: flags@, ..self@ }),
    {
        MsgBuilder { flags: flags.to_string(), ..self }
    }

    /// Put the message into `new` instead of `cur`.
    pub fn in_new(self) -> (r: MsgBuilder)
        ensures
            r@ == (MsgView { is_new: true, ..self@ }),
    {
        MsgBuilder { is_new: true, ..self }
    }

    /// The Message-ID.
    fn make_id(&self, seq_no: u64) -> (r: String)
        ensures
            r@ == self@.id(seq_no),
    {
        match &self.message_id {
            Some(id) => id.clone(),
            None => {
                let mut r = "mock-".to_string();
                push_decimal(&mut r, seq_no);
                r.push_str("@example.com");
                r
            },
        }
    }

    /// The text of the message.
    fn make_text(&self, seq_no: u64) -> (r: String)
        ensures
            r@ == self@.text(seq_no),
    {
        let mut raw = String::new();
        match &self.from_name {
            Some(name) => {
                let mut sender = name.clone();
                sender.push_str(" ");
                sender.push_str(&in_brackets(&self.from));
                assert(sender@ =~= self@.sender());
                push_header(&mut raw, "From", &sender);
            },
            None => push_header(&mut raw, "From", &self.from),
        }
        assert(raw@ =~= header_line("From"@, self@.sender()));
        push_header(&mut raw, "Subject", &self.subject);
        push_header(&mut raw, "Message-ID", &in_brackets(&self.make_id(seq_no)));
        let ghost start = raw@;
        if let Some(id) = &self.list_id {
            push_header(&mut raw, "List-Id", &in_brackets(id));
            push_header(&mut raw, "List-Unsubscribe", &in_brackets("mailto:unsub@example.com"));
        }
        assert(raw@ =~= start + self@.list_headers());
        let ghost above = raw@;
        let ghost pairs = self@.extra_headers;
        assert(above + header_lines(pairs.take(0)) =~= above);
        for i in 0..self.extra_headers.len()
            invariant
                pairs == text_pairs(self.extra_headers@),
                raw@ == above + header_lines(pairs.take(i as int)),
        {
            let pair = &self.extra_headers[i];
            push_header(&mut raw, &pair.0, &pair.1);
            proof {
                assert(pairs.take(i + 1).drop_last() =~= pairs.take(i as int));
                assert(pairs.take(i + 1).last() == (pair.0@, pair.1@));
                assert(raw@ =~= above + header_lines(pairs.take(i + 1)));
            }
        }
        assert(pairs.take(self.extra_headers@.len() as int) =~= pairs);
        raw.push_str("\r\n");
        raw.push_str("This is a mock message body.\r\n");
        raw
    }

    /// The filename.
    fn make_name(&self, seq_no: u64) -> (r: String)
        ensures
            r@ == self@.name(seq_no).rendered(),
    {
        let mut base = String::new();
        push_decimal(&mut base, MOCK_SECS);
        base.push('.');
        push_decimal(&mut base, seq_no);
        base.push('_');
        push_decimal(
            &mut base,
            match self.uid {
                Some(uid) => uid as u64,
                None => seq_no,
            },
        );
        base.push_str(".mock");
        proof {
            reveal_strlit(".mock");
            assert(".mock"@ =~= seq!['.', 'm', 'o', 'c', 'k']);
            assert(base@ =~= self@.name(seq_no).base);
        }
        MaildirName { base, uid: self.uid, flags: self.flags.clone() }.to_filename()
    }

    /// The message's filename and its file; it takes the next sequence number of the cache.
    pub fn write(self, cache: &mut MockCache) -> (r: MockMessage)
        requires
            old(cache).seq < u64::MAX,
        ensures
            final(cache).seq == old(cache).seq + 1,
            final(cache).root == old(cache).root,
            r.filename@ == self@.name(final(cache).seq).rendered(),
            r.file.path@ == self@.path(old(cache).root@, final(cache).seq),
            r.file.contents@ == self@.text(final(cache).seq),
    {
        let seq_no: u64 = cache.seq + 1;
        cache.seq = seq_no;
        let filename = self.make_name(seq_no);
        let sub = if self.is_new {
            "new"
        } else {
            "cur"
        };
        let path = join_path(
            &join_path(&join_path(&cache.root, &self.folder), sub),
            &filename,
        );
        MockMessage { filename, file: MockFile { path, contents: self.make_text(seq_no) } }
    }
}

/// A synthetic filename is in the native scheme: it parses into the UID and the flags that
/// were set, and has no UID where none was.
pub proof fn law_mock_name_parses(m: MsgView, seq_no: u64)
    ensures
        parsed(m.name(seq_no).rendered()) == m.name(seq_no),
        parsed(m.name(seq_no).rendered()).uid == m.uid,
        parsed(m.name(seq_no).rendered()).flags == m.flags,
{
    let base = m.name(seq_no).base;
    let mark: u64 = match m.uid {
        Some(uid) => uid as u64,
        None => seq_no,
    };
    lemma_decimal_plain(MOCK_SECS as nat, ':');
    lemma_decimal_plain(seq_no as nat, ':');
    lemma_decimal_plain(mark as nat, ':');
    lemma_decimal_plain(MOCK_SECS as nat, ',');
    lemma_decimal_plain(seq_no as nat, ',');
    lemma_decimal_plain(mark as nat, ',');
    assert forall|i: int| 0 <= i < base.len() implies base[i] != ':' && base[i] != ',' by {
        let a = decimal(MOCK_SECS as nat);
        let b = decimal(seq_no as nat);
        let c = decimal(mark as nat);
        if i < a.len() {
            assert(base[i] == a[i]);
        } else if a.len() < i < a.len() + 1 + b.len() {
            assert(base[i] == b[i - a.len() - 1]);
        } else if a.len() + b.len() + 1 < i < a.len() + b.len() + 2 + c.len() {
            assert(base[i] == c[i - a.len() - b.len() - 2]);
        }
    }
    lemma_rfind(base, uid_mark());
    assert forall|i: int| !occurs_at(base, uid_mark(), i) by {
        if occurs_at(base, uid_mark(), i) {
            assert(base.subrange(i, i + 3)[0] == ',');
        }
    }
    law_name_round_trip(m.name(seq_no));
}

} // verus!
