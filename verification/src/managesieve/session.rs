//! A ManageSieve (RFC 5804) session over STARTTLS and SASL PLAIN, as a dialogue: each step
//! says what is to be sent or read next, the driver does it and reports what came of it.
//!
//! Only the subset the deployer needs: greeting, STARTTLS, AUTHENTICATE, LISTSCRIPTS,
//! GETSCRIPT, PUTSCRIPT, SETACTIVE, LOGOUT.

pub mod laws;

use vstd::prelude::*;
use vstd::utf8::{decode_utf8, encode_utf8, valid_utf8};

use crate::error::Error;
use crate::managesieve::wire::{
    activate_command, active_among, auth_command, base64, find_active, get_command, literal_size,
    put_header, read_script_reply, status_of, strip_line_end, take_line, without_line_end,
    ScriptReply, Status,
};
use crate::number::decimal;
use crate::sieve::quoted;
use crate::text::{opt_text, starts_with, texts, trim, upper_all};

verus! {

// ---- text on the wire ----

/// What `String::from_utf8_lossy` makes of bytes.
pub uninterp spec fn lossy(bytes: Seq<u8>) -> Seq<char>;

/// `String::from_utf8_lossy`: the text of the bytes, a function of the bytes alone. Of
/// bytes that are UTF-8 it is the text they encode; how it stands in for others is not
/// stated.
#[verifier::external_body]
fn to_text_lossy(bytes: &[u8]) -> (r: String)
    ensures
        r@ == lossy(bytes@),
        valid_utf8(bytes@) ==> r@ == decode_utf8(bytes@),
{
    String::from_utf8_lossy(bytes).into_owned()
}

/// `String::from_utf8`: the text that the bytes encode, if they are UTF-8.
#[verifier::external_body]
fn to_text(bytes: &[u8]) -> (r: Option<String>)
    ensures
        match r {
            Some(s) => valid_utf8(bytes@) && s@ == decode_utf8(bytes@),
            None => !valid_utf8(bytes@),
        },
{
    String::from_utf8(bytes.to_vec()).ok()
}

/// A line as text, without its line break.
pub open spec fn line_text(bytes: Seq<u8>) -> Seq<char> {
    lossy(without_line_end(bytes))
}

// ---- the dialogue ----

/// How far a dialogue has come. Those named for a reply read its lines.
#[derive(Debug, Clone, Copy, PartialEq, Eq, Structural)]
pub enum Phase {
    Greeting,
    AskingTls,
    TlsReply,
    Checking,
    Securing,
    Capabilities,
    Authenticating,
    AuthReply,
    Listing,
    ListReply,
    Getting,
    FirstLine,
    Body,
    Trailer,
    Putting,
    PutReply,
    Activating,
    ActivateReply,
    Leaving,
    Farewell,
    Over,
}

/// A dialogue in progress.
#[derive(Debug, Clone, PartialEq, Eq)]
pub struct Talk {
    pub phase: Phase,
    pub user: String,
    pub pass: String,
    /// The lines of the reply so far.
    pub lines: Vec<String>,
    /// The script that was read.
    pub body: Vec<u8>,
}

/// The view of a [`Talk`].
#[verifier::ext_equal]
pub ghost struct TalkView {
    pub phase: Phase,
    pub user: Seq<char>,
    pub pass: Seq<char>,
    pub lines: Seq<Seq<char>>,
    pub body: Seq<u8>,
}

impl View for Talk {
    type V = TalkView;

    open spec fn view(&self) -> TalkView {
        TalkView {
            phase: self.phase,
            user: self.user@,
            pass: self.pass@,
            lines: texts(self.lines@),
            body: self.body@,
        }
    }
}

/// What a dialogue was for.
#[derive(Debug, Clone, PartialEq, Eq)]
pub enum Answer {
    Connected,
    /// Name of the active script, if any.
    Active(Option<String>),
    /// A script's contents, if there is such a script.
    Script(Option<String>),
    Stored,
    Activated,
    LoggedOut,
}

/// The view of an [`Answer`].
#[verifier::ext_equal]
pub ghost enum AnswerView {
    Connected,
    Active(Option<Seq<char>>),
    Script(Option<Seq<char>>),
    Stored,
    Activated,
    LoggedOut,
}

impl View for Answer {
    type V = AnswerView;

    open spec fn view(&self) -> AnswerView {
        match self {
            Answer::Connected => AnswerView::Connected,
            Answer::Active(name) => AnswerView::Active(opt_text(*name)),
            Answer::Script(text) => AnswerView::Script(opt_text(*text)),
            Answer::Stored => AnswerView::Stored,
            Answer::Activated => AnswerView::Activated,
            Answer::LoggedOut => AnswerView::LoggedOut,
        }
    }
}

/// What the driver is to do next.
#[derive(Debug, PartialEq, Eq)]
pub enum Ask {
    /// Read up to and including the next line break.
    ReadLine,
    /// Read exactly so many bytes.
    ReadExact(usize),
    /// Send the text, and flush.
    Send(String),
    /// Say whether more input has come than was read.
    Waiting,
    /// Secure the connection by TLS.
    StartTls,
    /// The dialogue is over.
    Finish(Result<Answer, Error>),
}

/// The view of an [`Ask`].
#[verifier::ext_equal]
pub ghost enum AskView {
    ReadLine,
    ReadExact(nat),
    Send(Seq<char>),
    Waiting,
    StartTls,
    Finish(Result<AnswerView, Seq<char>>),
}

impl View for Ask {
    type V = AskView;

    open spec fn view(&self) -> AskView {
        match self {
            Ask::ReadLine => AskView::ReadLine,
            Ask::ReadExact(n) => AskView::ReadExact(*n as nat),
            Ask::Send(text) => AskView::Send(text@),
            Ask::Waiting => AskView::Waiting,
            Ask::StartTls => AskView::StartTls,
            Ask::Finish(Ok(answer)) => AskView::Finish(Ok(answer@)),
            Ask::Finish(Err(e)) => AskView::Finish(Err(e@)),
        }
    }
}

/// What came of it.
#[derive(Debug, Clone, PartialEq, Eq)]
pub enum Reply {
    /// A line with its line break; empty if the connection was closed.
    Line(Vec<u8>),
    /// The bytes that were asked for.
    Bytes(Vec<u8>),
    /// Whether more input has come than was read.
    Waiting(bool),
    /// It was done.
    Done,
    /// It could not be done, and why.
    Failed(String),
}

/// The view of a [`Reply`].
#[verifier::ext_equal]
pub ghost enum ReplyView {
    Line(Seq<u8>),
    Bytes(Seq<u8>),
    Waiting(bool),
    Done,
    Failed(Seq<char>),
}

impl View for Reply {
    type V = ReplyView;

    open spec fn view(&self) -> ReplyView {
        match self {
            Reply::Line(b) => ReplyView::Line(b@),
            Reply::Bytes(b) => ReplyView::Bytes(b@),
            Reply::Waiting(b) => ReplyView::Waiting(*b),
            Reply::Done => ReplyView::Done,
            Reply::Failed(e) => ReplyView::Failed(e@),
        }
    }
}

impl TalkView {
    /// A dialogue about nothing in particular, at a phase.
    pub open spec fn fresh(phase: Phase) -> TalkView {
        TalkView {
            phase,
            user: Seq::empty(),
            pass: Seq::empty(),
            lines: Seq::empty(),
            body: Seq::empty(),
        }
    }

    /// The dialogue at another phase, with no line read yet.
    pub open spec fn at(self, phase: Phase) -> TalkView {
        TalkView { phase, lines: Seq::empty(), ..self }
    }

    /// The dialogue is over with this result.
    pub open spec fn over(self, r: Result<AnswerView, Seq<char>>) -> (TalkView, AskView) {
        (self.at(Phase::Over), AskView::Finish(r))
    }
}

/// The phase reads a reply to its end.
pub open spec fn reads_reply(phase: Phase) -> bool {
    phase == Phase::Greeting || phase == Phase::TlsReply || phase == Phase::Capabilities || phase
        == Phase::AuthReply || phase == Phase::ListReply || phase == Phase::Trailer || phase
        == Phase::PutReply || phase == Phase::ActivateReply || phase == Phase::Farewell
}

/// What is said of a reply that ends badly or not at all.
pub open spec fn complaint(phase: Phase) -> Seq<char> {
    match phase {
        Phase::Greeting => "reading server greeting"@,
        Phase::TlsReply => "STARTTLS"@,
        Phase::Capabilities => "post-TLS capabilities"@,
        Phase::AuthReply => "authentication"@,
        Phase::ListReply => "LISTSCRIPTS"@,
        Phase::Trailer => "GETSCRIPT trailer"@,
        Phase::PutReply => "PUTSCRIPT (server rejected the script?)"@,
        Phase::ActivateReply => "SETACTIVE"@,
        _ => ""@,
    }
}

/// The line that authenticates.
pub open spec fn auth_line(user: Seq<char>, pass: Seq<char>) -> Seq<char> {
    "AUTHENTICATE \"PLAIN\" \""@ + base64(
        encode_utf8(seq!['\0'] + user + seq!['\0'] + pass),
    ) + "\""@ + "\r\n"@
}

/// What follows a reply that was read to a good end.
pub open spec fn after_reply(talk: TalkView) -> (TalkView, AskView) {
    match talk.phase {
        Phase::Greeting => (talk.at(Phase::AskingTls), AskView::Send("STARTTLS\r\n"@)),
        Phase::TlsReply => (talk.at(Phase::Checking), AskView::Waiting),
        Phase::Capabilities => (
            talk.at(Phase::Authenticating),
            AskView::Send(auth_line(talk.user, talk.pass)),
        ),
        Phase::AuthReply => talk.over(Ok(AnswerView::Connected)),
        Phase::ListReply => talk.over(Ok(AnswerView::Active(active_among(talk.lines)))),
        Phase::Trailer => if valid_utf8(talk.body) {
            talk.over(Ok(AnswerView::Script(Some(decode_utf8(talk.body)))))
        } else {
            talk.over(Err("script is not UTF-8"@))
        },
        Phase::PutReply => talk.over(Ok(AnswerView::Stored)),
        Phase::ActivateReply => talk.over(Ok(AnswerView::Activated)),
        _ => talk.over(Ok(AnswerView::LoggedOut)),
    }
}

/// What follows a reply that ends badly or not at all. A farewell may end as it likes.
pub open spec fn after_failure(talk: TalkView) -> (TalkView, AskView) {
    if talk.phase == Phase::Farewell {
        talk.over(Ok(AnswerView::LoggedOut))
    } else {
        talk.over(Err(complaint(talk.phase)))
    }
}

/// What follows the first line of the answer to `GETSCRIPT`.
pub open spec fn after_first_line(talk: TalkView, text: Seq<char>) -> (TalkView, AskView) {
    let line = trim(text);
    match literal_size(line) {
        Some(n) => (talk.at(Phase::Body), AskView::ReadExact(n)),
        None => if starts_with(upper_all(line), "NO"@) {
            talk.over(Ok(AnswerView::Script(None)))
        } else if starts_with(upper_all(line), "OK"@) {
            talk.over(Ok(AnswerView::Script(Some(Seq::empty()))))
        } else {
            talk.over(Err("unexpected GETSCRIPT response: "@ + line))
        },
    }
}

/// The phase that follows a line that was sent.
pub open spec fn after_send(phase: Phase) -> Option<Phase> {
    match phase {
        Phase::AskingTls => Some(Phase::TlsReply),
        Phase::Authenticating => Some(Phase::AuthReply),
        Phase::Listing => Some(Phase::ListReply),
        Phase::Getting => Some(Phase::FirstLine),
        Phase::Putting => Some(Phase::PutReply),
        Phase::Activating => Some(Phase::ActivateReply),
        Phase::Leaving => Some(Phase::Farewell),
        _ => None,
    }
}

/// What follows: the dialogue as it is then, and what to do next.
pub open spec fn next(talk: TalkView, reply: ReplyView) -> (TalkView, AskView) {
    match reply {
        ReplyView::Line(bytes) => if reads_reply(talk.phase) {
            if bytes.len() == 0 {
                after_failure(talk)
            } else {
                match status_of(line_text(bytes)) {
                    Status::Done => after_reply(talk),
                    Status::Failed => after_failure(talk),
                    Status::More => (
                        TalkView { lines: talk.lines.push(line_text(bytes)), ..talk },
                        AskView::ReadLine,
                    ),
                }
            }
        } else if talk.phase == Phase::FirstLine {
            if bytes.len() == 0 {
                talk.over(Err("connection closed by server"@))
            } else {
                after_first_line(talk, line_text(bytes))
            }
        } else {
            talk.over(Err("unexpected answer"@))
        },
        ReplyView::Bytes(bytes) => if talk.phase == Phase::Body {
            (TalkView { body: bytes, ..talk.at(Phase::Trailer) }, AskView::ReadLine)
        } else {
            talk.over(Err("unexpected answer"@))
        },
        ReplyView::Waiting(more) => if talk.phase == Phase::Checking {
            if more {
                talk.over(Err("server sent unexpected data before the TLS handshake"@))
            } else {
                (talk.at(Phase::Securing), AskView::StartTls)
            }
        } else {
            talk.over(Err("unexpected answer"@))
        },
        ReplyView::Done => if talk.phase == Phase::Securing {
            (talk.at(Phase::Capabilities), AskView::ReadLine)
        } else {
            match after_send(talk.phase) {
                Some(phase) => (talk.at(phase), AskView::ReadLine),
                None => talk.over(Err("unexpected answer"@)),
            }
        },
        ReplyView::Failed(why) => if reads_reply(talk.phase) {
            after_failure(talk)
        } else if talk.phase == Phase::Body {
            talk.over(Err("reading script body"@))
        } else {
            talk.over(Err(why))
        },
    }
}

/// A finish with an error.
fn fail(message: &str) -> (r: Ask)
    ensures
        r@ == AskView::Finish(Err(message@)),
{
    Ask::Finish(Err(Error::new(message.to_string())))
}

/// A line with its line break.
fn with_break(line: String) -> (r: String)
    ensures
        r@ == line@ + "\r\n"@,
{
    let mut r = line;
    r.push_str("\r\n");
    r
}

impl Talk {
    /// A dialogue at a phase.
    fn fresh(phase: Phase) -> (r: Talk)
        ensures
            r@ == TalkView::fresh(phase),
    {
        let r = Talk {
            phase,
            user: String::new(),
            pass: String::new(),
            lines: Vec::new(),
            body: Vec::new(),
        };
        assert(r@ =~= TalkView::fresh(phase));
        r
    }

    /// Begin a session on a fresh connection: read the greeting, go over to TLS, and
    /// authenticate as `user`.
    pub fn connect(user: &str, pass: &str) -> (r: (Talk, Ask))
        ensures
            r.0@ == (TalkView { user: user@, pass: pass@, ..TalkView::fresh(Phase::Greeting) }),
            r.1@ == AskView::ReadLine,
    {
        let mut talk = Talk::fresh(Phase::Greeting);
        talk.user = user.to_string();
        talk.pass = pass.to_string();
        (talk, Ask::ReadLine)
    }

    /// Ask for the active script.
    pub fn active_script() -> (r: (Talk, Ask))
        ensures
            r.0@ == TalkView::fresh(Phase::Listing),
            r.1@ == AskView::Send("LISTSCRIPTS\r\n"@),
    {
        (Talk::fresh(Phase::Listing), Ask::Send("LISTSCRIPTS\r\n".to_string()))
    }

    /// Ask for a script.
    pub fn get_script(name: &str) -> (r: (Talk, Ask))
        ensures
            r.0@ == TalkView::fresh(Phase::Getting),
            r.1@ == AskView::Send("GETSCRIPT "@ + quoted(name@) + "\r\n"@),
    {
        (Talk::fresh(Phase::Getting), Ask::Send(with_break(get_command(name))))
    }

    /// Upload a script, as a literal that needs no go-ahead.
    pub fn put_script(name: &str, content: &str) -> (r: (Talk, Ask))
        ensures
            r.0@ == TalkView::fresh(Phase::Putting),
            r.1@ == AskView::Send(
                "PUTSCRIPT "@ + quoted(name@) + " {"@ + decimal(encode_utf8(content@).len())
                    + "+}\r\n"@ + content@ + "\r\n"@,
            ),
    {
        let mut text = put_header(name, content.as_bytes().len());
        text.push_str(content);
        text.push_str("\r\n");
        (Talk::fresh(Phase::Putting), Ask::Send(text))
    }

    /// Make a script the active one.
    pub fn set_active(name: &str) -> (r: (Talk, Ask))
        ensures
            r.0@ == TalkView::fresh(Phase::Activating),
            r.1@ == AskView::Send("SETACTIVE "@ + quoted(name@) + "\r\n"@),
    {
        (Talk::fresh(Phase::Activating), Ask::Send(with_break(activate_command(name))))
    }

    /// Take leave.
    pub fn logout() -> (r: (Talk, Ask))
        ensures
            r.0@ == TalkView::fresh(Phase::Leaving),
            r.1@ == AskView::Send("LOGOUT\r\n"@),
    {
        (Talk::fresh(Phase::Leaving), Ask::Send("LOGOUT\r\n".to_string()))
    }

    /// The dialogue at another phase, with no line read yet.
    fn at(self, phase: Phase) -> (r: Talk)
        ensures
            r@ == self@.at(phase),
    {
        let mut talk = self;
        talk.phase = phase;
        talk.lines = Vec::new();
        assert(talk@.lines =~= Seq::empty());
        talk
    }

    /// Whether the phase reads a reply to its end.
    fn reads_reply(&self) -> (r: bool)
        ensures
            r == reads_reply(self.phase),
    {
        match self.phase {
            Phase::Greeting => true,
            Phase::TlsReply => true,
            Phase::Capabilities => true,
            Phase::AuthReply => true,
            Phase::ListReply => true,
            Phase::Trailer => true,
            Phase::PutReply => true,
            Phase::ActivateReply => true,
            Phase::Farewell => true,
            _ => false,
        }
    }

    /// What follows a reply that was read to a good end.
    fn after_reply(self) -> (r: (Talk, Ask))
        requires
            reads_reply(self.phase),
        ensures
            (r.0@, r.1@) == after_reply(self@),
    {
        match self.phase {
            Phase::Greeting => (
                self.at(Phase::AskingTls),
                Ask::Send("STARTTLS\r\n".to_string()),
            ),
            Phase::TlsReply => (self.at(Phase::Checking), Ask::Waiting),
            Phase::Capabilities => {
                let line = with_break(auth_command(&self.user, &self.pass));
                assert(line@ =~= auth_line(self@.user, self@.pass));
                (self.at(Phase::Authenticating), Ask::Send(line))
            },
            Phase::AuthReply => (self.at(Phase::Over), Ask::Finish(Ok(Answer::Connected))),
            Phase::ListReply => {
                let active = find_active(&self.lines);
                (self.at(Phase::Over), Ask::Finish(Ok(Answer::Active(active))))
            },
            Phase::Trailer => {
                let ask = match to_text(&self.body) {
                    Some(text) => Ask::Finish(Ok(Answer::Script(Some(text)))),
                    None => fail("script is not UTF-8"),
                };
                (self.at(Phase::Over), ask)
            },
            Phase::PutReply => (self.at(Phase::Over), Ask::Finish(Ok(Answer::Stored))),
            Phase::ActivateReply => (self.at(Phase::Over), Ask::Finish(Ok(Answer::Activated))),
            _ => (self.at(Phase::Over), Ask::Finish(Ok(Answer::LoggedOut))),
        }
    }

    /// What follows a reply that ends badly or not at all.
    fn after_failure(self) -> (r: (Talk, Ask))
        requires
            reads_reply(self.phase),
        ensures
            (r.0@, r.1@) == after_failure(self@),
    {
        let ask = match self.phase {
            Phase::Greeting => fail("reading server greeting"),
            Phase::TlsReply => fail("STARTTLS"),
            Phase::Capabilities => fail("post-TLS capabilities"),
            Phase::AuthReply => fail("authentication"),
            Phase::ListReply => fail("LISTSCRIPTS"),
            Phase::Trailer => fail("GETSCRIPT trailer"),
            Phase::PutReply => fail("PUTSCRIPT (server rejected the script?)"),
            Phase::ActivateReply => fail("SETACTIVE"),
            _ => Ask::Finish(Ok(Answer::LoggedOut)),
        };
        (self.at(Phase::Over), ask)
    }

    /// What follows the first line of the answer to `GETSCRIPT`.
    fn after_first_line(self, text: &str) -> (r: (Talk, Ask))
        ensures
            (r.0@, r.1@) == after_first_line(self@, text@),
    {
        match read_script_reply(text) {
            Ok(ScriptReply::Literal(n)) => (self.at(Phase::Body), Ask::ReadExact(n)),
            Ok(ScriptReply::Missing) => (
                self.at(Phase::Over),
                Ask::Finish(Ok(Answer::Script(None))),
            ),
            Ok(ScriptReply::Empty) => {
                let empty = String::new();
                assert(empty@ =~= Seq::empty());
                (self.at(Phase::Over), Ask::Finish(Ok(Answer::Script(Some(empty)))))
            },
            Err(e) => (self.at(Phase::Over), Ask::Finish(Err(e))),
        }
    }

    /// What follows a line of a reply.
    fn after_line(self, bytes: Vec<u8>) -> (r: (Talk, Ask))
        requires
            reads_reply(self.phase),
            bytes@.len() > 0,
        ensures
            (r.0@, r.1@) == next(self@, ReplyView::Line(bytes@)),
    {
        let mut talk = self;
        let mut bytes = bytes;
        strip_line_end(&mut bytes);
        let line = to_text_lossy(&bytes);
        let ghost was = talk.lines@;
        match take_line(&mut talk.lines, line) {
            None => {
                assert(texts(talk.lines@) =~= texts(was).push(line@));
                (talk, Ask::ReadLine)
            },
            Some(Ok(_)) => talk.after_reply(),
            Some(Err(_)) => talk.after_failure(),
        }
    }

    /// Go on with the dialogue after a reply.
    pub fn step(self, reply: Reply) -> (r: (Talk, Ask))
        ensures
            (r.0@, r.1@) == next(self@, reply@),
    {
        match reply {
            Reply::Line(bytes) => {
                if self.reads_reply() {
                    if bytes.len() == 0 {
                        self.after_failure()
                    } else {
                        self.after_line(bytes)
                    }
                } else if self.phase == Phase::FirstLine {
                    if bytes.len() == 0 {
                        (self.at(Phase::Over), fail("connection closed by server"))
                    } else {
                        let mut bytes = bytes;
                        strip_line_end(&mut bytes);
                        self.after_first_line(&to_text_lossy(&bytes))
                    }
                } else {
                    (self.at(Phase::Over), fail("unexpected answer"))
                }
            },
            Reply::Bytes(bytes) => {
                if self.phase == Phase::Body {
                    let mut talk = self.at(Phase::Trailer);
                    talk.body = bytes;
                    (talk, Ask::ReadLine)
                } else {
                    (self.at(Phase::Over), fail("unexpected answer"))
                }
            },
            Reply::Waiting(more) => {
                if self.phase == Phase::Checking {
                    if more {
                        (
                            self.at(Phase::Over),
                            fail("server sent unexpected data before the TLS handshake"),
                        )
                    } else {
                        (self.at(Phase::Securing), Ask::StartTls)
                    }
                } else {
                    (self.at(Phase::Over), fail("unexpected answer"))
                }
            },
            Reply::Done => match self.phase {
                Phase::Securing => (self.at(Phase::Capabilities), Ask::ReadLine),
                Phase::AskingTls => (self.at(Phase::TlsReply), Ask::ReadLine),
                Phase::Authenticating => (self.at(Phase::AuthReply), Ask::ReadLine),
                Phase::Listing => (self.at(Phase::ListReply), Ask::ReadLine),
                Phase::Getting => (self.at(Phase::FirstLine), Ask::ReadLine),
                Phase::Putting => (self.at(Phase::PutReply), Ask::ReadLine),
                Phase::Activating => (self.at(Phase::ActivateReply), Ask::ReadLine),
                Phase::Leaving => (self.at(Phase::Farewell), Ask::ReadLine),
                _ => (self.at(Phase::Over), fail("unexpected answer")),
            },
            Reply::Failed(why) => {
                if self.reads_reply() {
                    self.after_failure()
                } else if self.phase == Phase::Body {
                    (self.at(Phase::Over), fail("reading script body"))
                } else {
                    (self.at(Phase::Over), Ask::Finish(Err(Error::new(why))))
                }
            },
        }
    }
}

// ---- laws ----

/// A point of a dialogue.
#[verifier::ext_equal]
pub ghost struct TalkPoint {
    pub talk: TalkView,
    pub ask: AskView,
}

/// One point follows another by a reply.
pub open spec fn follows_by(a: TalkPoint, b: TalkPoint, reply: ReplyView) -> bool {
    (b.talk, b.ask) == next(a.talk, reply)
}

/// The points that the start of a session goes through, with the replies between them,
/// whatever the server says.
pub open spec fn is_connecting(
    user: Seq<char>,
    pass: Seq<char>,
    course: Seq<TalkPoint>,
    replies: Seq<ReplyView>,
) -> bool {
    &&& course.len() == replies.len() + 1
    &&& course[0].talk == (TalkView { user, pass, ..TalkView::fresh(Phase::Greeting) })
    &&& course[0].ask == AskView::ReadLine
    &&& forall|i: int|
        0 <= i < replies.len() ==> follows_by(
            #[trigger] course[i],
            course[i + 1],
            replies[i],
        )
}

/// The connection was secured before the point `i`.
pub open spec fn secured(course: Seq<TalkPoint>, replies: Seq<ReplyView>, i: int) -> bool {
    exists|j: int|
        0 <= j < i && (#[trigger] course[j]).ask == AskView::StartTls && replies[j]
            == ReplyView::Done
}

/// The connection is not secured yet in these phases, and in these only.
spec fn is_open(phase: Phase) -> bool {
    phase == Phase::Greeting || phase == Phase::AskingTls || phase == Phase::TlsReply || phase
        == Phase::Checking || phase == Phase::Securing
}

/// What holds at each point of the start of a session.
proof fn lemma_connecting(
    user: Seq<char>,
    pass: Seq<char>,
    course: Seq<TalkPoint>,
    replies: Seq<ReplyView>,
    i: int,
)
    requires
        is_connecting(user, pass, course, replies),
        0 <= i < course.len(),
    ensures
        ({
            let p = course[i].talk.phase;
            &&& is_open(p) || p == Phase::Over || p == Phase::Capabilities || p
                == Phase::Authenticating || p == Phase::AuthReply
            &&& p == Phase::Capabilities || p == Phase::Authenticating || p == Phase::AuthReply
                ==> secured(course, replies, i)
            &&& course[i].ask is Send && !secured(course, replies, i) ==> course[i].ask
                == AskView::Send("STARTTLS\r\n"@)
            &&& p == Phase::Securing <==> course[i].ask == AskView::StartTls
            &&& course[i].ask == AskView::Finish(Ok(AnswerView::Connected)) ==> secured(
                course,
                replies,
                i,
            )
        }),
    decreases i,
{
    if i > 0 {
        lemma_connecting(user, pass, course, replies, i - 1);
        let a = course[i - 1];
        let b = course[i];
        assert(follows_by(course[i - 1], course[i - 1 + 1], replies[i - 1]));
        if secured(course, replies, i - 1) {
            let j = choose|j: int|
                0 <= j < i - 1 && (#[trigger] course[j]).ask == AskView::StartTls && replies[j]
                    == ReplyView::Done;
            assert(course[j].ask == AskView::StartTls);
            assert(secured(course, replies, i));
        }
        if a.talk.phase == Phase::Securing && replies[i - 1] == ReplyView::Done {
            assert(course[i - 1].ask == AskView::StartTls);
            assert(secured(course, replies, i));
        }
    }
}

/// Nothing but the request for TLS is sent before the connection is secured, whatever the
/// server says; so the password never goes out in the clear. And no session counts as
/// connected that is not secured.
pub proof fn law_nothing_in_the_clear(
    user: Seq<char>,
    pass: Seq<char>,
    course: Seq<TalkPoint>,
    replies: Seq<ReplyView>,
    i: int,
)
    requires
        is_connecting(user, pass, course, replies),
        0 <= i < course.len(),
        !secured(course, replies, i),
    ensures
        course[i].ask is Send ==> course[i].ask == AskView::Send("STARTTLS\r\n"@),
        course[i].ask != AskView::Finish(Ok(AnswerView::Connected)),
{
    lemma_connecting(user, pass, course, replies, i);
}

} // verus!
