//! What a ManageSieve dialogue comes to.

use vstd::prelude::*;
use vstd::utf8::{decode_utf8, encode_utf8, valid_utf8};

use crate::managesieve::session::{
    follows_by, is_connecting, line_text, next, AnswerView, AskView, Phase, ReplyView, TalkPoint,
    TalkView,
};
use crate::managesieve::wire::laws::capitals;
use crate::managesieve::wire::{active_among, base64, literal_size, status_of, Status};
use crate::text::{starts_with, trim, upper_all};

verus! {

/// The line that logs in: the user and the password, each behind a zero byte, in base 64.
pub open spec fn login_line(user: Seq<char>, pass: Seq<char>) -> Seq<char> {
    "AUTHENTICATE \"PLAIN\" \""@ + base64(encode_utf8(seq!['\0'] + user + seq!['\0'] + pass))
        + "\""@ + "\r\n"@
}

/// The login was sent before the point `i`.
pub open spec fn logged_in(
    user: Seq<char>,
    pass: Seq<char>,
    course: Seq<TalkPoint>,
    replies: Seq<ReplyView>,
    i: int,
) -> bool {
    exists|j: int|
        0 <= j < i && (#[trigger] course[j]).ask == AskView::Send(login_line(user, pass))
            && replies[j] == ReplyView::Done
}

/// A line that says the command succeeded.
pub open spec fn is_ok(reply: ReplyView) -> bool {
    reply matches ReplyView::Line(bytes) && bytes.len() > 0 && status_of(line_text(bytes))
        == Status::Done
}

/// A reply that says the command failed, or none at all.
pub open spec fn is_refusal(reply: ReplyView) -> bool {
    match reply {
        ReplyView::Line(bytes) => bytes.len() == 0 || status_of(line_text(bytes))
            == Status::Failed,
        ReplyView::Failed(_) => true,
        _ => false,
    }
}

proof fn lemma_login(
    user: Seq<char>,
    pass: Seq<char>,
    course: Seq<TalkPoint>,
    replies: Seq<ReplyView>,
    i: int,
)
    requires
        is_connecting(user, pass, course, replies),
        0 <= i < course.len(),
    ensures
        ({
            let p = course[i].talk.phase;
            &&& course[i].talk.user == user && course[i].talk.pass == pass
            &&& p == Phase::Greeting || p == Phase::AskingTls || p == Phase::TlsReply || p
                == Phase::Checking || p == Phase::Securing || p == Phase::Capabilities || p
                == Phase::Authenticating || p == Phase::AuthReply || p == Phase::Over
            &&& p == Phase::Authenticating ==> course[i].ask == AskView::Send(
                login_line(user, pass),
            )
            &&& p == Phase::AuthReply ==> logged_in(user, pass, course, replies, i)
            &&& course[i].ask matches AskView::Send(text) ==> text == "STARTTLS\r\n"@ || text
                == login_line(user, pass)
            &&& course[i].ask == AskView::Finish(Ok(AnswerView::Connected)) ==> i > 0 && logged_in(
                user,
                pass,
                course,
                replies,
                i,
            ) && is_ok(replies[i - 1])
        }),
    decreases i,
{
    if i > 0 {
        lemma_login(user, pass, course, replies, i - 1);
        let a = course[i - 1];
        assert(follows_by(course[i - 1], course[i - 1 + 1], replies[i - 1]));
        if logged_in(user, pass, course, replies, i - 1) {
            let j = choose|j: int|
                0 <= j < i - 1 && (#[trigger] course[j]).ask == AskView::Send(
                    login_line(user, pass),
                ) && replies[j] == ReplyView::Done;
            assert(course[j].ask == AskView::Send(login_line(user, pass)));
            assert(logged_in(user, pass, course, replies, i));
        }
        if a.talk.phase == Phase::Authenticating && replies[i - 1] == ReplyView::Done {
            assert(course[i - 1].ask == AskView::Send(login_line(user, pass)));
            assert(logged_in(user, pass, course, replies, i));
        }
    }
}

/// Starting a session sends the request for TLS and the login of the user who was named,
/// and nothing else. It counts as connected only once the login was sent and the server
/// said that it succeeded.
pub proof fn law_connected_means_logged_in(
    user: Seq<char>,
    pass: Seq<char>,
    course: Seq<TalkPoint>,
    replies: Seq<ReplyView>,
    i: int,
)
    requires
        is_connecting(user, pass, course, replies),
        0 <= i < course.len(),
    ensures
        course[i].ask matches AskView::Send(text) ==> text == "STARTTLS\r\n"@ || text
            == login_line(user, pass),
        course[i].ask == AskView::Finish(Ok(AnswerView::Connected)) ==> i > 0 && logged_in(
            user,
            pass,
            course,
            replies,
            i,
        ) && is_ok(replies[i - 1]),
{
    lemma_login(user, pass, course, replies, i);
}

/// A server that agrees at every step gets a session: it is greeted, asked for TLS, secured,
/// told the login, and the session is connected.
pub proof fn law_agreeable_server(
    user: Seq<char>,
    pass: Seq<char>,
    course: Seq<TalkPoint>,
    replies: Seq<ReplyView>,
)
    requires
        is_connecting(user, pass, course, replies),
        replies.len() == 8,
        is_ok(replies[0]) && is_ok(replies[2]) && is_ok(replies[5]) && is_ok(replies[7]),
        replies[1] == ReplyView::Done && replies[4] == ReplyView::Done && replies[6]
            == ReplyView::Done,
        replies[3] == ReplyView::Waiting(false),
    ensures
        course[1].ask == AskView::Send("STARTTLS\r\n"@),
        course[4].ask == AskView::StartTls,
        course[6].ask == AskView::Send(login_line(user, pass)),
        course[8].ask == AskView::Finish(Ok(AnswerView::Connected)),
{
    assert(follows_by(course[0], course[0int + 1], replies[0]));
    assert(follows_by(course[1], course[1int + 1], replies[1]));
    assert(follows_by(course[2], course[2int + 1], replies[2]));
    assert(follows_by(course[3], course[3int + 1], replies[3]));
    assert(follows_by(course[4], course[4int + 1], replies[4]));
    assert(follows_by(course[5], course[5int + 1], replies[5]));
    assert(follows_by(course[6], course[6int + 1], replies[6]));
    assert(follows_by(course[7], course[7int + 1], replies[7]));
}

/// What a command asks for, by the phase in which its reply is read, given the lines of the
/// reply before its last.
pub open spec fn answer_in(phase: Phase, lines: Seq<Seq<char>>) -> AnswerView {
    match phase {
        Phase::ListReply => AnswerView::Active(active_among(lines)),
        Phase::PutReply => AnswerView::Stored,
        _ => AnswerView::Activated,
    }
}

/// A command is answered by the server: its answer is given if the server says that it
/// succeeded, an error if it says that it failed or says nothing; any other line is kept,
/// and the next is read.
pub proof fn law_command_answered(talk: TalkView, reply: ReplyView)
    requires
        talk.phase == Phase::ListReply || talk.phase == Phase::PutReply || talk.phase
            == Phase::ActivateReply,
    ensures
        is_ok(reply) ==> next(talk, reply).1 == AskView::Finish(
            Ok(answer_in(talk.phase, talk.lines)),
        ),
        is_refusal(reply) ==> (next(talk, reply).1 matches AskView::Finish(Err(_))),
        next(talk, reply).1 matches AskView::Finish(Ok(_)) ==> is_ok(reply),
        reply matches ReplyView::Line(bytes) ==> bytes.len() > 0 && status_of(line_text(bytes))
            == Status::More ==> {
            &&& next(talk, reply).1 == AskView::ReadLine
            &&& next(talk, reply).0.phase == talk.phase
            &&& next(talk, reply).0.lines == talk.lines.push(line_text(bytes))
        },
{
}

/// Once a command has been sent its reply is read.
pub proof fn law_reply_read(talk: TalkView)
    ensures
        talk.phase == Phase::Listing ==> next(talk, ReplyView::Done).0.phase == Phase::ListReply,
        talk.phase == Phase::Getting ==> next(talk, ReplyView::Done).0.phase == Phase::FirstLine,
        talk.phase == Phase::Putting ==> next(talk, ReplyView::Done).0.phase == Phase::PutReply,
        talk.phase == Phase::Activating ==> next(talk, ReplyView::Done).0.phase
            == Phase::ActivateReply,
        talk.phase == Phase::Listing || talk.phase == Phase::Getting || talk.phase
            == Phase::Putting || talk.phase == Phase::Activating ==> {
            &&& next(talk, ReplyView::Done).1 == AskView::ReadLine
            &&& next(talk, ReplyView::Done).0.lines.len() == 0
        },
{
}

/// A script is given as the server sends it: as many bytes are read as its size says, and
/// once the server says that this was all, the text is what they encode.
pub proof fn law_script_given(talk: TalkView, first: Seq<u8>, body: Seq<u8>, last: ReplyView)
    requires
        talk.phase == Phase::FirstLine,
        first.len() > 0,
        literal_size(trim(line_text(first))) is Some,
        is_ok(last),
    ensures
        ({
            let (a, ask) = next(talk, ReplyView::Line(first));
            let (b, more) = next(a, ReplyView::Bytes(body));
            &&& ask == AskView::ReadExact(literal_size(trim(line_text(first)))->0)
            &&& more == AskView::ReadLine
            &&& valid_utf8(body) ==> next(b, last).1 == AskView::Finish(
                Ok(AnswerView::Script(Some(decode_utf8(body)))),
            )
            &&& !valid_utf8(body) ==> (next(b, last).1 matches AskView::Finish(Err(_)))
        }),
{
}

/// A script that is not there is told so, an empty one is empty, and anything else but a
/// size is an error.
pub proof fn law_script_missing(talk: TalkView, first: Seq<u8>)
    requires
        talk.phase == Phase::FirstLine,
        first.len() > 0,
        literal_size(trim(line_text(first))) is None,
    ensures
        ({
            let said = capitals(trim(line_text(first)));
            next(talk, ReplyView::Line(first)).1 matches AskView::Finish(r) && if starts_with(
                said,
                "NO"@,
            ) {
                r == Ok::<AnswerView, Seq<char>>(AnswerView::Script(None))
            } else if starts_with(said, "OK"@) {
                r == Ok::<AnswerView, Seq<char>>(AnswerView::Script(Some(Seq::empty())))
            } else {
                r is Err
            }
        }),
{
    let line = trim(line_text(first));
    assert(capitals(line) =~= upper_all(line));
}

/// A session can always be left: whatever the server says to that, it counts as left.
pub proof fn law_logout(talk: TalkView, reply: ReplyView)
    requires
        talk.phase == Phase::Farewell,
        is_ok(reply) || is_refusal(reply),
    ensures
        next(talk, reply).1 == AskView::Finish(Ok(AnswerView::LoggedOut)),
{
}

/// A connection that cannot be trusted is given up: if the server has sent more than its
/// agreement to TLS, or refuses at any step, the session ends with an error.
pub proof fn law_connecting_refused(talk: TalkView, reply: ReplyView)
    ensures
        talk.phase == Phase::Checking && reply == ReplyView::Waiting(true) ==> (next(
            talk,
            reply,
        ).1 matches AskView::Finish(Err(_))),
        talk.phase == Phase::TlsReply && is_ok(reply) ==> next(talk, reply).1 == AskView::Waiting
            && next(talk, reply).0.phase == Phase::Checking,
        (talk.phase == Phase::Greeting || talk.phase == Phase::TlsReply || talk.phase
            == Phase::Capabilities || talk.phase == Phase::AuthReply) && is_refusal(reply) ==> (
        next(talk, reply).1 matches AskView::Finish(Err(_))),
        (talk.phase == Phase::Securing || talk.phase == Phase::AskingTls || talk.phase
            == Phase::Authenticating) && reply is Failed ==> (next(
            talk,
            reply,
        ).1 matches AskView::Finish(Err(_))),
{
}

} // verus!
