//! The text of the ManageSieve protocol: what to send, and what the replies mean.

pub mod laws;

use vstd::prelude::*;

use crate::error::Error;
use crate::number::{decimal, parse_uint, parse_usize, push_decimal};
use crate::sieve::{quote, quoted};
use crate::text::{
    begins_with, contains_text, find, find_first, from_chars, has_text, opt_text, slice,
    starts_with, texts, to_chars, trim, trim_end_set, trim_start, trimmed, trimmed_end_set,
    trimmed_start, upper_all, uppercase,
};

verus! {

// ---- replies ----

/// What a reply line says: the command succeeded, it failed, or neither yet.
pub ghost enum Status {
    Done,
    Failed,
    More,
}

/// The status of a reply line, whatever its case and the whitespace before it.
pub open spec fn status_of(line: Seq<char>) -> Status {
    let upper = upper_all(trim_start(line));
    if starts_with(upper, "OK"@) {
        Status::Done
    } else if starts_with(upper, "NO"@) || starts_with(upper, "BYE"@) {
        Status::Failed
    } else {
        Status::More
    }
}

/// Take one reply line. `None` asks for the next one, with this one kept; `Some` ends the
/// reply, with the server's message if the command failed.
pub fn take_line(lines: &mut Vec<String>, line: String) -> (r: Option<Result<(), Error>>)
    ensures
        match status_of(line@) {
            Status::Done => r matches Some(Ok(_)) && final(lines)@ == old(lines)@,
            Status::Failed => {
                &&& r matches Some(Err(e)) && e@ == "server said: "@ + trim(line@)
                &&& final(lines)@ == old(lines)@
            },
            Status::More => r is None && final(lines)@ == old(lines)@.push(line),
        },
{
    let chars = to_chars(&line);
    let upper = uppercase(trimmed_start(&chars));
    if begins_with(&upper, &to_chars("OK")) {
        return Some(Ok(()));
    }
    if begins_with(&upper, &to_chars("NO")) || begins_with(&upper, &to_chars("BYE")) {
        let mut message = "server said: ".to_string();
        message.push_str(&from_chars(trimmed(&chars)));
        return Some(Err(Error::new(message)));
    }
    lines.push(line);
    None
}

/// Bytes without line breaks at the end.
pub open spec fn without_line_end(bytes: Seq<u8>) -> Seq<u8>
    decreases bytes.len(),
{
    if bytes.len() > 0 && (bytes.last() == 10 || bytes.last() == 13) {
        without_line_end(bytes.drop_last())
    } else {
        bytes
    }
}

/// Drop the line breaks at the end of a line.
pub fn strip_line_end(bytes: &mut Vec<u8>)
    ensures
        final(bytes)@ == without_line_end(old(bytes)@),
{
    while bytes.len() > 0 && (bytes[bytes.len() - 1] == 10 || bytes[bytes.len() - 1] == 13)
        invariant
            without_line_end(bytes@) == without_line_end(old(bytes)@),
        decreases bytes@.len(),
    {
        let ghost before = bytes@;
        bytes.pop();
        assert(bytes@ =~= before.drop_last());
    }
}

/// The size that a literal marker like `{123}` or `{123+}` gives.
pub open spec fn literal_size(s: Seq<char>) -> Option<nat> {
    if s.len() >= 2 && s[0] == '{' && s.last() == '}' {
        parse_uint(trim_end_set(s.subrange(1, s.len() - 1), seq!['+']), usize::MAX as nat)
    } else {
        None
    }
}

/// The size that some characters give as a literal marker.
fn literal_in(s: &[char]) -> (r: Option<usize>)
    ensures
        match r {
            Some(n) => literal_size(s@) == Some(n as nat),
            None => literal_size(s@) is None,
        },
{
    let n: usize = s.len();
    if n < 2 || s[0] != '{' || s[n - 1] != '}' {
        return None;
    }
    let plus = ['+'];
    assert(plus@ =~= seq!['+']);
    parse_usize(trimmed_end_set(slice(s, 1, n - 1), &plus))
}

/// If `s` is a literal marker like `{123}` or `{123+}`, return the size.
pub fn parse_literal(s: &str) -> (r: Option<usize>)
    ensures
        match r {
            Some(n) => literal_size(s@) == Some(n as nat),
            None => literal_size(s@) is None,
        },
{
    literal_in(&to_chars(s))
}

/// The text between the first two double quotes.
pub open spec fn first_quoted(line: Seq<char>) -> Option<Seq<char>> {
    match find(line, seq!['"']) {
        None => None,
        Some(i) => {
            let rest = line.skip(i + 1);
            match find(rest, seq!['"']) {
                None => None,
                Some(j) => Some(rest.take(j)),
            }
        },
    }
}

/// Extract the first double-quoted token from a line.
pub fn unquote_first(line: &str) -> (r: Option<String>)
    ensures
        opt_text(r) == first_quoted(line@),
{
    let chars = to_chars(line);
    let n: usize = chars.len();
    let mark = ['"'];
    assert(mark@ =~= seq!['"']);
    match find_first(&chars, &mark) {
        None => None,
        Some(i) => {
            let rest = slice(&chars, i + 1, n);
            assert(rest@ =~= line@.skip(i + 1));
            match find_first(rest, &mark) {
                None => None,
                Some(j) => {
                    let token = slice(rest, 0, j);
                    assert(token@ =~= rest@.take(j as int));
                    Some(from_chars(token))
                },
            }
        },
    }
}

/// The name in the first line that is marked as active and holds one.
pub open spec fn active_among(lines: Seq<Seq<char>>) -> Option<Seq<char>>
    decreases lines.len(),
{
    if lines.len() == 0 {
        None
    } else if has_text(upper_all(lines[0]), "ACTIVE"@) && first_quoted(lines[0]) is Some {
        first_quoted(lines[0])
    } else {
        active_among(lines.skip(1))
    }
}

/// The active script in the reply to `LISTSCRIPTS`: lines of `"name" [ACTIVE]`.
pub fn find_active(lines: &Vec<String>) -> (r: Option<String>)
    ensures
        opt_text(r) == active_among(texts(lines@)),
{
    let ghost all = texts(lines@);
    let word = to_chars("ACTIVE");
    assert(all.skip(0) =~= all);
    for i in 0..lines.len()
        invariant
            all == texts(lines@),
            word@ == "ACTIVE"@,
            active_among(all) == active_among(all.skip(i as int)),
    {
        assert(all.skip(i as int)[0] == lines@[i as int]@);
        assert(all.skip(i as int).skip(1) =~= all.skip(i + 1));
        if contains_text(&uppercase(&to_chars(&lines[i])), &word) {
            if let Some(name) = unquote_first(&lines[i]) {
                return Some(name);
            }
        }
    }
    None
}

/// What the first line of a reply to `GETSCRIPT` announces.
#[derive(Debug, Clone, PartialEq, Eq)]
pub enum ScriptReply {
    /// So many bytes of script follow, then the rest of the reply.
    Literal(usize),
    /// There is no such script.
    Missing,
    /// The script is empty.
    Empty,
}

/// Read the first line of a reply to `GETSCRIPT`.
pub fn read_script_reply(first: &str) -> (r: Result<ScriptReply, Error>)
    ensures
        ({
            let line = trim(first@);
            let upper = upper_all(line);
            match literal_size(line) {
                Some(n) => r matches Ok(ScriptReply::Literal(m)) && m == n,
                None => if starts_with(upper, "NO"@) {
                    r matches Ok(ScriptReply::Missing)
                } else if starts_with(upper, "OK"@) {
                    r matches Ok(ScriptReply::Empty)
                } else {
                    r matches Err(e) && e@ == "unexpected GETSCRIPT response: "@ + line
                },
            }
        }),
{
    let chars = to_chars(first);
    let line = trimmed(&chars);
    if let Some(n) = literal_in(line) {
        return Ok(ScriptReply::Literal(n));
    }
    let upper = uppercase(line);
    if begins_with(&upper, &to_chars("NO")) {
        return Ok(ScriptReply::Missing);
    }
    if begins_with(&upper, &to_chars("OK")) {
        return Ok(ScriptReply::Empty);
    }
    let mut message = "unexpected GETSCRIPT response: ".to_string();
    message.push_str(&from_chars(line));
    Err(Error::new(message))
}

// ---- commands ----

/// The command that fetches a script.
pub fn get_command(name: &str) -> (r: String)
    ensures
        r@ == "GETSCRIPT "@ + quoted(name@),
{
    let mut r = "GETSCRIPT ".to_string();
    r.push_str(&quote(name));
    r
}

/// The command that activates a script.
pub fn activate_command(name: &str) -> (r: String)
    ensures
        r@ == "SETACTIVE "@ + quoted(name@),
{
    let mut r = "SETACTIVE ".to_string();
    r.push_str(&quote(name));
    r
}

/// The line that announces the upload of a script of so many bytes, as a literal that
/// needs no go-ahead, so the script can follow immediately.
pub fn put_header(name: &str, bytes: usize) -> (r: String)
    ensures
        r@ == "PUTSCRIPT "@ + quoted(name@) + " {"@ + decimal(bytes as nat) + "+}\r\n"@,
{
    let mut r = "PUTSCRIPT ".to_string();
    r.push_str(&quote(name));
    r.push_str(" {");
    push_decimal(&mut r, bytes as u64);
    r.push_str("+}\r\n");
    r
}

/// The command that authenticates with a SASL PLAIN token for `user` and `pass`.
pub fn auth_command(user: &str, pass: &str) -> (r: String)
    ensures
        r@ == "AUTHENTICATE \"PLAIN\" \""@ + base64(
            vstd::utf8::encode_utf8(seq!['\0'] + user@ + seq!['\0'] + pass@),
        ) + "\""@,
{
    let mut plain = String::new();
    plain.push('\0');
    plain.push_str(user);
    plain.push('\0');
    plain.push_str(pass);
    assert(plain@ =~= seq!['\0'] + user@ + seq!['\0'] + pass@);
    let mut r = "AUTHENTICATE \"PLAIN\" \"".to_string();
    r.push_str(&base64_encode(plain.as_str().as_bytes()));
    r.push_str("\"");
    r
}

// ---- base64 ----

/// The base64 digit of a number below 64.
pub open spec fn base64_digit(n: int) -> char {
    if n < 26 {
        (65 + n) as char
    } else if n < 52 {
        (71 + n) as char
    } else if n < 62 {
        (n - 4) as char
    } else if n == 62 {
        '+'
    } else {
        '/'
    }
}

/// The number that three bytes make, most significant first.
pub open spec fn triple(a: u8, b: u8, c: u8) -> int {
    a * 65536 + b * 256 + c
}

/// Standard base64: every three bytes become four digits; a last group of one or two bytes
/// is padded with zero bits to two or three digits, and those with `=` to four.
pub open spec fn base64(bytes: Seq<u8>) -> Seq<char>
    decreases bytes.len(),
{
    if bytes.len() == 0 {
        Seq::empty()
    } else if bytes.len() == 1 {
        let n = triple(bytes[0], 0, 0);
        seq![base64_digit(n / 262144), base64_digit(n / 4096 % 64), '=', '=']
    } else if bytes.len() == 2 {
        let n = triple(bytes[0], bytes[1], 0);
        seq![
            base64_digit(n / 262144),
            base64_digit(n / 4096 % 64),
            base64_digit(n / 64 % 64),
            '=',
        ]
    } else {
        let n = triple(bytes[0], bytes[1], bytes[2]);
        seq![
            base64_digit(n / 262144),
            base64_digit(n / 4096 % 64),
            base64_digit(n / 64 % 64),
            base64_digit(n % 64),
        ] + base64(bytes.skip(3))
    }
}

/// The base64 digit of a number below 64.
fn digit(n: u32) -> (r: char)
    requires
        n < 64,
    ensures
        r == base64_digit(n as int),
{
    if n < 26 {
        (65 + n as u8) as char
    } else if n < 52 {
        (71 + n as u8) as char
    } else if n < 62 {
        (n as u8 - 4) as char
    } else if n == 62 {
        '+'
    } else {
        '/'
    }
}

/// Standard base64 (for SASL PLAIN).
pub fn base64_encode(input: &[u8]) -> (r: String)
    ensures
        r@ == base64(input@),
{
    let len: usize = input.len();
    let mut out = String::new();
    let mut i: usize = 0;
    assert(input@.skip(0) =~= input@);
    assert(out@ + base64(input@.skip(0)) =~= base64(input@));
    while len - i >= 3
        invariant
            len == input@.len(),
            i <= len,
            out@ + base64(input@.skip(i as int)) == base64(input@),
        decreases len - i,
    {
        let ghost rest = input@.skip(i as int);
        let ghost before = out@;
        let n: u32 = input[i] as u32 * 65536 + input[i + 1] as u32 * 256 + input[i + 2] as u32;
        assert(n == triple(rest[0], rest[1], rest[2]));
        out.push(digit(n / 262144));
        out.push(digit(n / 4096 % 64));
        out.push(digit(n / 64 % 64));
        out.push(digit(n % 64));
        proof {
            assert(rest.skip(3) =~= input@.skip(i + 3));
            assert(out@ + base64(input@.skip(i + 3)) =~= before + base64(rest));
        }
        i += 3;
    }
    let ghost rest = input@.skip(i as int);
    if len - i == 1 {
        let n: u32 = input[i] as u32 * 65536;
        assert(n == triple(rest[0], 0, 0));
        let ghost before = out@;
        out.push(digit(n / 262144));
        out.push(digit(n / 4096 % 64));
        out.push('=');
        out.push('=');
        assert(out@ =~= before + base64(rest));
    } else if len - i == 2 {
        let n: u32 = input[i] as u32 * 65536 + input[i + 1] as u32 * 256;
        assert(n == triple(rest[0], rest[1], 0));
        let ghost before = out@;
        out.push(digit(n / 262144));
        out.push(digit(n / 4096 % 64));
        out.push(digit(n / 64 % 64));
        out.push('=');
        assert(out@ =~= before + base64(rest));
    } else {
        assert(out@ + base64(rest) =~= out@);
    }
    out
}

} // verus!
