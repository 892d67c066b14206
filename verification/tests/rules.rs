use mail_util::managesieve::session::{Answer, Ask, Reply, Talk};
use mail_util::managesieve::wire::{
    activate_command, auth_command, base64_encode, find_active, get_command, parse_literal,
    put_header, read_script_reply, take_line, unquote_first, ScriptReply,
};
use mail_util::managesieve::{FakeSieveOps, SieveDeployer, SieveOps, DEFAULT_SCRIPT};
use mail_util::model::{Cluster, Confidence, Destination, Signal, SieveRule, SieveTest};
use mail_util::sieve::{
    merge, quote, render_rule, render_script, required_extensions, rule_for_cluster, BEGIN_MARKER,
    END_MARKER,
};

fn cluster(signal: Signal, key: &str) -> Cluster {
    Cluster {
        key: key.to_string(),
        signal,
        destination: Destination::New { dotpath: ".x".into() },
        count: 12,
        score: 1.0f64.to_bits() | (1 << 63),
        confidence: Confidence::High,
        sample_senders: vec![],
        sample_subjects: vec![],
        uids: vec![],
    }
}

fn rule(list_id: &str, target: &str) -> SieveRule {
    SieveRule {
        test: SieveTest::HeaderContains {
            header: "List-Id".to_string(),
            value: list_id.to_string(),
        },
        fileinto: target.to_string(),
        stop: true,
        comment: None,
    }
}

// ---- rules ----

#[test]
fn list_id_rule() {
    let r = rule_for_cluster(&cluster(Signal::ListId, "elixir.groups.io"), "lists.elixir");
    let text = render_rule(&r);
    assert!(text.contains(r#"header :contains "List-Id" "elixir.groups.io""#));
    assert!(text.contains(r#"fileinto "lists.elixir";"#));
    assert!(text.contains("stop;"));
}

#[test]
fn domain_rule() {
    let r = rule_for_cluster(&cluster(Signal::SenderDomain, "github.com"), "vendors.github");
    assert!(render_rule(&r).contains(r#"address :domain :is "From" "github.com""#));
}

#[test]
fn person_rule() {
    let r = rule_for_cluster(&cluster(Signal::PersonAddress, "jane@gmail.com"), "people.jane");
    assert!(render_rule(&r).contains(r#"address :all :is "From" "jane@gmail.com""#));
}

#[test]
fn quote_escapes() {
    assert_eq!(quote(r#"a"b\c"#), r#""a\"b\\c""#);
}

#[test]
fn rule_is_spelled_out() {
    let r = rule_for_cluster(&cluster(Signal::ListId, "l"), "L");
    assert_eq!(
        render_rule(&r),
        "# l (12 messages)\nif header :contains \"List-Id\" \"l\" {\n    fileinto \"L\";\n    stop;\n}"
    );
    let bare = SieveRule { stop: false, comment: None, ..r };
    assert_eq!(
        render_rule(&bare),
        "if header :contains \"List-Id\" \"l\" {\n    fileinto \"L\";\n}"
    );
}

#[test]
fn script_has_require() {
    let r = rule_for_cluster(&cluster(Signal::ListId, "l"), "L");
    let s = render_script(&[r]);
    assert!(s.starts_with(r#"require ["fileinto"];"#));
    assert!(s.contains(BEGIN_MARKER));
    assert!(s.contains(END_MARKER));
}

#[test]
fn script_without_rules() {
    assert_eq!(required_extensions(&[]), vec!["fileinto"]);
    assert_eq!(
        render_script(&[]),
        format!("require [\"fileinto\"];\n\n{BEGIN_MARKER}\n{END_MARKER}\n")
    );
}

#[test]
fn merge_into_empty_adds_require_and_block() {
    let r = rule_for_cluster(&cluster(Signal::ListId, "l"), "L");
    let out = merge("", &[r]);
    assert!(out.contains(r#"require ["fileinto"];"#));
    assert!(out.contains(BEGIN_MARKER));
}

#[test]
fn merge_preserves_handwritten_and_replaces_block() {
    let r1 = rule_for_cluster(&cluster(Signal::ListId, "first"), "First");
    let existing =
        merge("require [\"fileinto\"];\n\n# my own rule\nif true { keep; }\n", &[r1]);
    assert!(existing.contains("# my own rule"));

    // Re-merge with different rules: hand rule stays, managed block is replaced.
    let r2 = rule_for_cluster(&cluster(Signal::ListId, "second"), "Second");
    let out = merge(&existing, &[r2]);
    assert!(out.contains("# my own rule"), "hand-written rule preserved");
    assert!(out.contains("second"), "new managed rule present");
    assert!(!out.contains("\"first\""), "old managed rule removed: {out}");
    // Exactly one managed block.
    assert_eq!(out.matches(BEGIN_MARKER).count(), 1);
    // require not duplicated.
    assert_eq!(out.matches("require").count(), 1);
}

#[test]
fn merge_is_idempotent() {
    let r = rule_for_cluster(&cluster(Signal::ListId, "l"), "L");
    let once = merge("", &[r.clone()]);
    let twice = merge(&once, &[r]);
    assert_eq!(once, twice);
}

#[test]
fn merge_keeps_text_around_the_block() {
    let before = "require [\"fileinto\"];\nkeep;\n";
    let first = merge(before, &[rule("a", "A")]);
    let more = format!("{first}# after\n");
    let second = merge(&more, &[rule("b", "B")]);
    assert!(second.starts_with(before));
    assert!(second.ends_with("\n# after\n"));
    assert!(second.contains("\"b\"") && !second.contains("\"a\""));
}

#[test]
fn merge_appends_after_a_lone_end_marker() {
    let out = merge(END_MARKER, &[rule("a", "A")]);
    assert!(out.contains(END_MARKER));
    assert_eq!(out.matches(BEGIN_MARKER).count(), 1);
    assert!(out.find(END_MARKER) < out.find(BEGIN_MARKER));
}

// ---- deployment ----

#[test]
fn deploys_to_a_new_script_when_none_active() {
    let mut d = SieveDeployer::new(FakeSieveOps::new());
    let report = d.deploy(None, &[rule("elixir.groups.io", "lists.elixir")]).unwrap();
    assert_eq!(report.script, DEFAULT_SCRIPT);
    assert!(report.created);
}

#[test]
fn merges_into_existing_active_script_and_keeps_it_active() {
    let ops = FakeSieveOps::new().with_script(
        "roundcube",
        "require [\"fileinto\"];\n\n# hand rule\nif true { keep; }\n",
        true,
    );
    let mut d = SieveDeployer::new(ops);
    let report = d.deploy(None, &[rule("elixir.groups.io", "lists.elixir")]).unwrap();

    assert_eq!(report.script, "roundcube");
    assert!(!report.created);

    // Deploy a second time to confirm idempotency + that the hand rule survives.
    let merged = d.preview(None, &[rule("elixir.groups.io", "lists.elixir")]).unwrap();
    assert!(merged.contains("# hand rule"), "hand-written rule preserved");
    assert!(merged.contains(r#"fileinto "lists.elixir";"#));
    assert_eq!(d.ops.active_script().unwrap().as_deref(), Some("roundcube"));
}

#[test]
fn deploy_is_idempotent() {
    let mut d = SieveDeployer::new(FakeSieveOps::new());
    let rules = [rule("l", "L")];
    let r1 = d.deploy(None, &rules).unwrap();
    let r2 = d.deploy(None, &rules).unwrap();
    assert_eq!(r1.bytes, r2.bytes, "second deploy produces identical script");
}

#[test]
fn preview_does_not_upload() {
    let mut ops = FakeSieveOps::new();
    // Snapshot: no scripts yet.
    assert!(ops.active_script().unwrap().is_none());
    let mut d = SieveDeployer::new(ops.clone());
    let _ = d.preview(None, &[rule("l", "L")]).unwrap();
    // The original ops is untouched (preview operated on the deployer's own copy).
    assert_eq!(ops.scripts.len(), 0);
    assert_eq!(d.ops.scripts.len(), 0, "nor is the copy");
}

#[test]
fn explicit_name_overrides_active() {
    let ops = FakeSieveOps::new().with_script("main", "require [\"fileinto\"];\n", true);
    let mut d = SieveDeployer::new(ops);
    let report = d.deploy(Some("mail-util"), &[rule("l", "L")]).unwrap();
    assert_eq!(report.script, "mail-util");
}

#[test]
fn deployed_script_counts_bytes() {
    let mut d = SieveDeployer::new(FakeSieveOps::new());
    let report = d.deploy(None, &[rule("l", "L")]).unwrap();
    let script = d.ops.get_script(DEFAULT_SCRIPT).unwrap().unwrap();
    assert_eq!(report.bytes, script.len());
    assert!(script.contains('—'), "the marker is not ASCII, so bytes are not characters");
}

#[test]
fn deploy_uploads_what_was_previewed() {
    let ops = FakeSieveOps::new().with_script("main", "# mine\nkeep;\n", true);
    let mut d = SieveDeployer::new(ops);
    let rules = [rule("l", "L")];
    let shown = d.preview(None, &rules).unwrap();
    let report = d.deploy(None, &rules).unwrap();
    assert_eq!(report.script, "main");
    assert_eq!(d.ops.get_script("main").unwrap(), Some(shown.clone()));
    assert_eq!(report.bytes, shown.len());
}

#[test]
fn only_the_last_merge_counts() {
    let first = [rule("a", "A"), rule("b", "B")];
    let second = [rule("c", "C")];
    let once = merge("", &first);
    for existing in ["", "  # mine\nkeep;\n", "require [\"fileinto\"];\nkeep;", once.as_str()] {
        assert_eq!(
            merge(&merge(existing, &first), &second),
            merge(existing, &second),
            "{existing}"
        );
        assert_eq!(merge(&merge(existing, &first), &[]), merge(existing, &[]), "{existing}");
    }
}

#[test]
fn merging_into_nothing_gives_the_standalone_script() {
    for rules in [vec![], vec![rule("a", "A")], vec![rule("a", "A"), rule("b", "B")]] {
        let script = merge("", &rules);
        assert_eq!(script, render_script(&rules));
        let block = script.trim_start_matches("require [\"fileinto\"];\n\n").trim_end();
        assert!(block.starts_with(BEGIN_MARKER));
        assert!(block.ends_with(END_MARKER));
    }
}

// ---- the wire format ----

#[test]
fn base64_matches_known_vectors() {
    assert_eq!(base64_encode(b""), "");
    assert_eq!(base64_encode(b"f"), "Zg==");
    assert_eq!(base64_encode(b"fo"), "Zm8=");
    assert_eq!(base64_encode(b"foo"), "Zm9v");
    assert_eq!(base64_encode(b"foobar"), "Zm9vYmFy");
    // SASL PLAIN token shape.
    assert_eq!(base64_encode(b"\0user\0pass"), "AHVzZXIAcGFzcw==");
}

#[test]
fn parse_literal_forms() {
    assert_eq!(parse_literal("{123}"), Some(123));
    assert_eq!(parse_literal("{123+}"), Some(123));
    assert_eq!(parse_literal("OK"), None);
}

#[test]
fn unquote_first_name() {
    assert_eq!(unquote_first(r#""roundcube" ACTIVE"#).as_deref(), Some("roundcube"));
}

#[test]
fn commands_are_spelled_out() {
    assert_eq!(auth_command("user", "pass"), "AUTHENTICATE \"PLAIN\" \"AHVzZXIAcGFzcw==\"");
    assert_eq!(get_command("a\"b"), "GETSCRIPT \"a\\\"b\"");
    assert_eq!(activate_command("x"), "SETACTIVE \"x\"");
    assert!(put_header("x", 12).starts_with("PUTSCRIPT \"x\" {12+}"));
}

#[test]
fn replies_are_read() {
    let mut lines = Vec::new();
    assert!(take_line(&mut lines, "\"main\" ACTIVE".to_string()).is_none());
    assert!(take_line(&mut lines, "\"other\"".to_string()).is_none());
    assert!(take_line(&mut lines, "OK done".to_string()).unwrap().is_ok());
    assert_eq!(find_active(&lines).as_deref(), Some("main"));
    let refused = take_line(&mut lines, "NO such thing".to_string()).unwrap().unwrap_err();
    assert!(refused.to_string().contains("NO such thing"));

    assert!(matches!(read_script_reply("{5}"), Ok(ScriptReply::Literal(5))));
    assert!(read_script_reply("gibberish").is_err());
}

// ---- dialogues ----

/// Hold a dialogue with a server that says what it is told to; gives what was sent, and
/// the outcome.
fn hold(
    start: (Talk, Ask),
    mut server: Vec<Reply>,
) -> (Vec<String>, Result<Answer, String>) {
    let mut sent = Vec::new();
    let (mut talk, mut ask) = start;
    loop {
        let reply = match ask {
            Ask::Finish(r) => return (sent, r.map_err(|e| e.to_string())),
            Ask::Send(text) => {
                sent.push(text);
                Reply::Done
            }
            Ask::StartTls => {
                sent.push("<tls>".to_string());
                Reply::Done
            }
            Ask::ReadLine | Ask::ReadExact(_) | Ask::Waiting => server.remove(0),
        };
        let next = talk.step(reply);
        talk = next.0;
        ask = next.1;
    }
}

fn line(text: &str) -> Reply {
    Reply::Line(format!("{text}\r\n").into_bytes())
}

#[test]
fn session_goes_over_to_tls_before_logging_in() {
    let server = vec![
        line("\"IMPLEMENTATION\" \"x\""),
        line("OK hello"),
        line("OK begin TLS"),
        Reply::Waiting(false),
        line("\"SASL\" \"PLAIN\""),
        line("ok secured"),
        line("OK logged in"),
    ];
    let (sent, r) = hold(Talk::connect("user", "pass"), server);
    assert_eq!(r.unwrap(), Answer::Connected);
    assert_eq!(
        sent,
        vec![
            "STARTTLS\r\n",
            "<tls>",
            "AUTHENTICATE \"PLAIN\" \"AHVzZXIAcGFzcw==\"\r\n",
        ]
    );
}

#[test]
fn early_data_ends_the_session() {
    let server = vec![line("OK"), line("OK"), Reply::Waiting(true)];
    let (sent, r) = hold(Talk::connect("user", "pass"), server);
    assert_eq!(r.unwrap_err(), "server sent unexpected data before the TLS handshake");
    assert_eq!(sent, vec!["STARTTLS\r\n"]);
}

#[test]
fn session_failures_name_their_step() {
    let closed = || Reply::Line(Vec::new());
    let (_, r) = hold(Talk::connect("u", "p"), vec![closed()]);
    assert_eq!(r.unwrap_err(), "reading server greeting");
    let (_, r) = hold(Talk::connect("u", "p"), vec![line("OK"), line("NO tls")]);
    assert_eq!(r.unwrap_err(), "STARTTLS");
    let early = vec![line("OK"), line("OK"), Reply::Waiting(false), line("BYE")];
    let (_, r) = hold(Talk::connect("u", "p"), early);
    assert_eq!(r.unwrap_err(), "post-TLS capabilities");
    let wrong =
        vec![line("OK"), line("OK"), Reply::Waiting(false), line("OK"), line("NO bad password")];
    let (_, r) = hold(Talk::connect("u", "p"), wrong);
    assert_eq!(r.unwrap_err(), "authentication");
    let (_, r) = hold(Talk::active_script(), vec![Reply::Failed("timeout".to_string())]);
    assert_eq!(r.unwrap_err(), "LISTSCRIPTS");
    let (_, r) = hold(Talk::get_script("x"), vec![closed()]);
    assert_eq!(r.unwrap_err(), "connection closed by server");
    let (_, r) = hold(Talk::get_script("x"), vec![line("{3}"), Reply::Failed("eof".to_string())]);
    assert_eq!(r.unwrap_err(), "reading script body");
    let (_, r) =
        hold(Talk::get_script("x"), vec![line("{1}"), Reply::Bytes(vec![65]), closed()]);
    assert_eq!(r.unwrap_err(), "GETSCRIPT trailer");
    let (_, r) =
        hold(Talk::get_script("x"), vec![line("{1}"), Reply::Bytes(vec![0xff]), line("OK")]);
    assert_eq!(r.unwrap_err(), "script is not UTF-8");
    let (_, r) = hold(Talk::get_script("x"), vec![line("what?")]);
    assert_eq!(r.unwrap_err(), "unexpected GETSCRIPT response: what?");
    let (_, r) = hold(Talk::put_script("x", "y"), vec![line("NO syntax error")]);
    assert_eq!(r.unwrap_err(), "PUTSCRIPT (server rejected the script?)");
    let (_, r) = hold(Talk::set_active("x"), vec![line("NO such script")]);
    assert_eq!(r.unwrap_err(), "SETACTIVE");
    let (_, r) = hold(Talk::logout(), vec![closed()]);
    assert_eq!(r.unwrap(), Answer::LoggedOut);
}

#[test]
fn scripts_go_over_the_wire() {
    let listing = vec![line("\"a\""), line("\"b\" active"), line("OK")];
    let (sent, r) = hold(Talk::active_script(), listing);
    assert_eq!(sent, vec!["LISTSCRIPTS\r\n"]);
    assert_eq!(r.unwrap(), Answer::Active(Some("b".to_string())));

    let body = "keep; # é\r\n".as_bytes().to_vec();
    let fetched = vec![
        line(&format!("{{{}}}", body.len())),
        Reply::Bytes(body),
        line(""),
        line("OK"),
    ];
    let (sent, r) = hold(Talk::get_script("b"), fetched);
    assert_eq!(sent, vec!["GETSCRIPT \"b\"\r\n"]);
    assert_eq!(r.unwrap(), Answer::Script(Some("keep; # é\r\n".to_string())));

    let (_, r) = hold(Talk::get_script("b"), vec![line("NO (NONEXISTENT)")]);
    assert_eq!(r.unwrap(), Answer::Script(None));
    let (_, r) = hold(Talk::get_script("b"), vec![line("OK")]);
    assert_eq!(r.unwrap(), Answer::Script(Some(String::new())));

    let (sent, r) = hold(Talk::put_script("b", "é"), vec![line("OK")]);
    assert_eq!(sent, vec!["PUTSCRIPT \"b\" {2+}\r\né\r\n"]);
    assert_eq!(r.unwrap(), Answer::Stored);
    let (sent, r) = hold(Talk::set_active("b"), vec![line("OK")]);
    assert_eq!(sent, vec!["SETACTIVE \"b\"\r\n"]);
    assert_eq!(r.unwrap(), Answer::Activated);
}

#[test]
fn garbled_lines_are_still_read() {
    let mut garbled = b"\"caf".to_vec();
    garbled.push(0xe9);
    garbled.extend_from_slice(b"\" ACTIVE\n");
    let (_, r) = hold(Talk::active_script(), vec![Reply::Line(garbled), line("OK")]);
    assert_eq!(r.unwrap(), Answer::Active(Some("caf\u{fffd}".to_string())));
}
