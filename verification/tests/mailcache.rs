use mail_util::filename::MaildirName;
use mail_util::header::{header_block, normalize_list_id, parse};
use mail_util::uidvalidity::{reset_folders, FolderValidity, UidValidity, UidValidityError};

#[test]
fn parse_native_seen() {
    let n = MaildirName::parse("1726376999.528878_10.framework,U=10:2,S");
    assert_eq!(n.base, "1726376999.528878_10.framework");
    assert_eq!(n.uid, Some(10));
    assert_eq!(n.flags, "S");
}

#[test]
fn parse_multi_flags() {
    let n = MaildirName::parse("1726376999.528878_17.framework,U=17:2,PS");
    assert_eq!(n.uid, Some(17));
    assert_eq!(n.flags, "PS");
}

#[test]
fn parse_no_uid_no_flags() {
    let n = MaildirName::parse("1700000000.12345_1.host");
    assert_eq!(n.base, "1700000000.12345_1.host");
    assert_eq!(n.uid, None);
    assert_eq!(n.flags, "");
}

#[test]
fn roundtrip_preserves_bytes() {
    let orig = "1726376999.528878_20.framework,U=20:2,S";
    assert_eq!(MaildirName::parse(orig).to_filename(), orig);
}

#[test]
fn new_local_has_no_uid_but_keeps_flags() {
    // The critical anti-corruption property: a moved message's new file must NOT
    // carry a ,U= segment, or mbsync will treat it as a duplicate server UID.
    let n = MaildirName::new_local(1730000000, 42, 7, "host", "S");
    assert_eq!(n.uid, None);
    assert!(n.has_uid() == false);
    let rendered = n.to_filename();
    assert!(!rendered.contains(",U="), "fresh local file must omit ,U=: {rendered}");
    assert!(rendered.ends_with(":2,S"));
    assert_eq!(rendered, "1730000000.42_7.host:2,S");
}

#[test]
fn malformed_uid_segment_kept_in_base() {
    let n = MaildirName::parse("weird,U=notanumber:2,S");
    assert_eq!(n.base, "weird,U=notanumber");
    assert_eq!(n.uid, None);
    assert_eq!(n.flags, "S");
}

#[test]
fn unknown_info_version_has_no_flags() {
    for name in ["foo:1,S", "foo:S", "foo:", "foo:2", "foo:2,"] {
        let n = MaildirName::parse(name);
        assert_eq!(n.base, "foo", "{name}");
        assert_eq!(n.uid, None, "{name}");
        assert_eq!(n.flags, "", "{name}");
    }
}

#[test]
fn parse_two_lines() {
    let uv = UidValidity::parse("1726376998\n30068\n").unwrap();
    assert_eq!(uv.validity, 1726376998);
    assert_eq!(uv.max_uid, 30068);
}

#[test]
fn parse_missing_maxuid_defaults_zero() {
    let uv = UidValidity::parse("1726376998\n").unwrap();
    assert_eq!(uv.validity, 1726376998);
    assert_eq!(uv.max_uid, 0);
}

#[test]
fn parse_empty_is_error() {
    assert!(UidValidity::parse("").is_err());
}

#[test]
fn header_block_splits_on_blank_line() {
    let raw = b"From: a@b.com\nSubject: hi\n\nbody here\nmore body";
    let block = header_block(raw);
    assert!(block.ends_with(b"\n\n"));
    assert!(!std::str::from_utf8(block).unwrap().contains("body here"));
}

#[test]
fn normalize_list_id_extracts_angle_brackets() {
    assert_eq!(
        normalize_list_id("Parents list <Parents1.labschool.UCLA.edu>"),
        "parents1.labschool.ucla.edu"
    );
    assert_eq!(normalize_list_id("elixir.foo"), "elixir.foo");
}

#[test]
fn parse_extracts_core_fields() {
    let raw = b"From: Jane Doe <Jane@Example.COM>\r\n\
                To: me@here.org, you@there.org\r\n\
                Subject: Weekly digest\r\n\
                List-ID: The List <the-list.example.com>\r\n\
                List-Unsubscribe: <mailto:x>\r\n\
                Message-ID: <ABC123@example.com>\r\n\
                \r\n\
                body";
    let (h, mid) = parse(raw);
    assert_eq!(h.from_addr.as_deref(), Some("jane@example.com"));
    assert_eq!(h.from_name.as_deref(), Some("Jane Doe"));
    assert_eq!(h.list_id.as_deref(), Some("the-list.example.com"));
    assert_eq!(h.from_domain(), Some("example.com"));
    assert!(h.is_list_mail);
    assert_eq!(h.subject.as_deref(), Some("Weekly digest"));
    assert!(h.recipients.contains(&"me@here.org".to_string()));
    assert_eq!(mid.as_deref(), Some("abc123@example.com"));
}

#[test]
fn parse_no_list_headers() {
    let raw = b"From: bob@work.example\nSubject: lunch?\n\nhi";
    let (h, _) = parse(raw);
    assert_eq!(h.list_id, None);
    assert!(!h.is_list_mail);
    assert_eq!(h.from_domain(), Some("work.example"));
}

#[test]
fn list_id_alone_is_no_corroboration() {
    let (h, _) = parse(b"From: a@b.com\nList-Id: <x.list>\n\nbody");
    assert_eq!(h.list_id.as_deref(), Some("x.list"));
    assert!(!h.is_list_mail);
    let (h, _) = parse(b"From: a@b.com\nList-Post: <mailto:x>\n\nbody");
    assert_eq!(h.list_id, None);
    assert!(h.is_list_mail);
}

#[test]
fn bodies_inside_the_block_are_left_alone() {
    // A line of whitespace ends the headers for the parser, but not the block.
    let raw: &[u8] = b"From: a@b.com\nContent-Type: multipart/mixed; boundary=b\n\x0c\n--b\n\
        Content-Transfer-Encoding: quoted-printable\n\x0c\n=\n--b--\n";
    assert_eq!(header_block(raw), raw);
    let (h, id) = parse(raw);
    assert_eq!(h.from_addr.as_deref(), Some("a@b.com"));
    assert_eq!(id, None);

    let nested = "Content-Type: message/rfc822\n\x0c\n".repeat(100_000);
    let raw = format!("Subject: deep\n{nested}");
    assert_eq!(parse(raw.as_bytes()).0.subject.as_deref(), Some("deep"));

    let (h, _) = parse(b"From: a@b.com\r\r\n\r\r\nSubject: body\r\r\n");
    assert_eq!(h.from_addr.as_deref(), Some("a@b.com"));
    assert_eq!(h.subject, None);
}

#[test]
fn no_headers_at_all() {
    for raw in ["", "\n", "\r\nFrom: a@b.com\n", "  \n\nx"] {
        let (h, id) = parse(raw.as_bytes());
        assert_eq!((h.from_addr, h.from_name, h.subject, h.list_id), (None, None, None, None));
        assert!(h.recipients.is_empty() && !h.is_list_mail);
        assert_eq!(id, None);
    }
}

#[test]
fn only_the_header_block_counts() {
    let head = "From: Ann <A@B.com>\nTo: Z@z.org, y@Y.org, z@Z.ORG\nMessage-ID: <M1>\n\n";
    let full = format!("{head}Subject: not a header\n\nbody");
    let (h, id) = parse(full.as_bytes());
    assert_eq!((h.clone(), id.clone()), parse(head.as_bytes()));
    assert_eq!(h.subject, None);
    assert_eq!(h.recipients, vec!["y@y.org", "z@z.org"]);
    assert_eq!(id.as_deref(), Some("m1"));
    assert_eq!(header_block(header_block(full.as_bytes())), head.as_bytes());
}

#[test]
fn blank_display_name_is_none() {
    let (h, _) = parse(b"From: \"  \" <a@b.com>\n\n");
    assert_eq!(h.from_addr.as_deref(), Some("a@b.com"));
    assert_eq!(h.from_name, None);
}

#[test]
fn ascii_list_ids_are_lowered() {
    assert_eq!(normalize_list_id(" A <B> <The-LIST.Example.COM> "), "the-list.example.com");
    assert_eq!(normalize_list_id("  Plain.List "), "plain.list");
    assert_eq!(normalize_list_id("> odd <"), "> odd <");
}

#[test]
fn bad_validity_lines_are_told() {
    assert_eq!(UidValidity::parse("").unwrap_err(), UidValidityError::MissingValidity);
    assert_eq!(
        UidValidity::parse("").unwrap_err().to_string(),
        "uidvalidity file missing the validity line"
    );
    let bad = UidValidity::parse(" 12x \n5\n").unwrap_err();
    assert_eq!(bad.to_string(), "could not parse uidvalidity number: 12x");
    assert!(UidValidity::parse("5\n4294967296\n").is_err());
    assert_eq!(UidValidity::parse("5\n  \n").unwrap().max_uid, 0);
    assert_eq!(UidValidity::parse("+5\n").unwrap().validity, 5);
}

#[test]
fn validity_reads_back() {
    let uv = UidValidity { validity: u64::MAX, max_uid: u32::MAX };
    assert_eq!(UidValidity::parse(&uv.to_contents()).unwrap(), uv);
}

#[test]
fn changed_validity_is_noticed() {
    let f = |dotpath: &str, before, after| FolderValidity {
        dotpath: dotpath.to_string(),
        before,
        after,
    };
    let folders = [
        f(".a", Some(1), Some(1)),
        f(".b", Some(1), Some(2)),
        f(".c", None, Some(3)),
        f(".d", Some(4), None),
    ];
    assert_eq!(reset_folders(&folders), vec![".b".to_string()]);
}

#[test]
fn headers_beyond_ascii() {
    let raw = "From: =?utf-8?q?J=C3=B6rg?= <JÖRG@Example.COM>\nMessage-ID: <X@Y>\n\n".as_bytes();
    let (h, mid) = parse(raw);
    assert_eq!(h.from_name.as_deref(), Some("Jörg"));
    assert_eq!(h.from_addr.as_deref(), Some("jörg@example.com"));
    assert_eq!(mid.as_deref(), Some("x@y"));
}

#[test]
fn header_block_edges() {
    assert_eq!(header_block(b"no end"), b"no end");
    assert_eq!(header_block(b"A: b\r\n\r\nbody"), b"A: b\r\n\r\n");
    assert_eq!(header_block(b""), b"");
}
