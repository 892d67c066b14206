use std::cell::RefCell;
use std::collections::HashSet;
use std::rc::Rc;

use mail_util::error::Error;
use mail_util::imap::netrc::find_machine;
use mail_util::imap::probe::{already_exists, choose_delimiter};
use mail_util::imap::{FakeImapOps, ImapMover, ImapOps};
use mail_util::journal::engine::apply_plan;
use mail_util::journal::record::{
    completed_actions, record_lines, JournalRecord, RecordSink, Tee, VecSink,
};
use mail_util::journal::verify;
use mail_util::model::{FolderSpec, MoveAction, MoverKind, Plan, Precheck};
use mail_util::mover::{DryRunMover, FakeMover, FakeMsg, MoveOutcome, Mover};
use mail_util::reconcile::Reconciler;
use mail_util::textmap::{TextMap, TextSet};

fn imap_name(dotpath: &str) -> String {
    dotpath.trim_start_matches('.').replace("/.", ".")
}

fn folderspec(dotpath: &str) -> FolderSpec {
    FolderSpec {
        dotpath: dotpath.to_string(),
        imap_name: imap_name(dotpath),
        sieve_target: imap_name(dotpath),
        exists: false,
    }
}

fn action(mid: &str, uid: Option<u32>, src: &str, dst: &str) -> MoveAction {
    MoveAction {
        message_id: Some(mid.to_string()),
        src_folder: src.to_string(),
        uid,
        src_filename: "f".to_string(),
        dst_dotpath: dst.to_string(),
        dst_imap: imap_name(dst),
        cluster_key: "k".to_string(),
    }
}

fn action_in(mid: &str, uid: u32, src: &str, dst: &str) -> MoveAction {
    MoveAction {
        src_filename: format!("{uid}.host,U={uid}:2,S"),
        ..action(mid, Some(uid), src, dst)
    }
}

// ---- netrc ----

#[test]
fn parses_machine_entry() {
    let nc = "machine imap.example.com login me@example.com password s3cret\n";
    let a = find_machine(nc, "imap.example.com").unwrap();
    assert_eq!(a.login, "me@example.com");
    assert_eq!(a.password, "s3cret");
}

#[test]
fn picks_the_right_machine_among_several() {
    let nc = "machine a.com login au password ap\n\
              machine b.com login bu password bp\n";
    assert_eq!(find_machine(nc, "b.com").unwrap().login, "bu");
    assert!(find_machine(nc, "c.com").is_none());
}

#[test]
fn multiline_and_extra_tokens() {
    let nc = "machine a.com\n  login au\n  password ap\n  account foo\n";
    let a = find_machine(nc, "a.com").unwrap();
    assert_eq!((a.login.as_str(), a.password.as_str()), ("au", "ap"));
}

#[test]
fn incomplete_machine_is_passed_over() {
    let nc = "machine a.com login au\nmachine a.com login x password y\n";
    let a = find_machine(nc, "a.com").unwrap();
    assert_eq!((a.login.as_str(), a.password.as_str()), ("x", "y"));
    assert!(find_machine("machine a.com login au", "a.com").is_none());
    assert!(find_machine("", "a.com").is_none());
}

// ---- the server-side mover ----

fn server(supports_move: bool) -> FakeImapOps {
    let mut boxes = TextMap::new();
    boxes.insert("INBOX".to_string(), vec![1, 2, 3]);
    FakeImapOps::new(boxes, supports_move)
}

#[test]
fn moves_via_uid_move_when_supported() {
    let mut m = ImapMover::new(server(true), '.');
    m.ensure_folder(&folderspec(".lists/.x")).unwrap();
    let out = m.move_message(&action("a", Some(1), ".INBOX", ".lists/.x")).unwrap();
    assert_eq!(out, MoveOutcome::Moved);

    let ops = &m.ops;
    assert!(!ops.uids("INBOX").contains(&1), "uid gone from source");
    assert_eq!(ops.uids("lists.x").len(), 1, "one message in destination");
    assert!(ops.op_log.iter().any(|l| l == "UID MOVE 1 lists.x"));
    assert!(ops.created.contains(&"lists.x".to_string()));
}

#[test]
fn falls_back_to_copy_delete_expunge() {
    let mut m = ImapMover::new(server(false), '.');
    m.ensure_folder(&folderspec(".lists/.x")).unwrap();
    m.move_message(&action("a", Some(2), ".INBOX", ".lists/.x")).unwrap();

    let ops = &m.ops;
    assert!(!ops.uids("INBOX").contains(&2));
    assert_eq!(ops.uids("lists.x").len(), 1);
    let log = ops.op_log.join("|");
    assert!(log.contains("UID COPY 2 lists.x"));
    assert!(log.contains("STORE 2 +FLAGS \\Deleted"));
    assert!(log.contains("UID EXPUNGE 2"));
}

#[test]
fn tests_re_move_is_idempotent() {
    let mut m = ImapMover::new(server(true), '.');
    m.ensure_folder(&folderspec(".lists/.x")).unwrap();
    let a = action("a", Some(1), ".INBOX", ".lists/.x");
    assert_eq!(m.move_message(&a).unwrap(), MoveOutcome::Moved);
    // Second time: uid is gone from source, so it's a no-op, not an error.
    assert_eq!(m.move_message(&a).unwrap(), MoveOutcome::AlreadyDone);
}

#[test]
fn uid_less_message_is_refused() {
    let mut m = ImapMover::new(server(true), '.');
    let err = m.move_message(&action("a", None, ".INBOX", ".lists/.x")).unwrap_err();
    assert!(err.to_string().contains("no IMAP UID"));
}

#[test]
fn refusal_shows_the_message_id() {
    let mut m = ImapMover::new(server(true), '.');
    let err = m.move_message(&action("a\"b", None, ".INBOX", ".x")).unwrap_err();
    assert!(err.to_string().contains(r#"Some("a\"b")"#), "{}", err.to_string());
    assert!(err.to_string().contains(".INBOX"));
    assert_eq!(m.touched().len(), 0);
    assert!(m.ops.op_log.is_empty());
}

/// Remembers what it was run with.
struct Recorder {
    seen: Rc<RefCell<Vec<String>>>,
}

impl Reconciler for Recorder {
    fn run(&mut self, touched: &TextSet) -> Result<(), Error> {
        *self.seen.borrow_mut() = (0..touched.len()).map(|i| touched.item_at(i).clone()).collect();
        Ok(())
    }
}

#[test]
fn reconciler_receives_touched_folders() {
    let touched: Rc<RefCell<Vec<String>>> = Rc::new(RefCell::new(Vec::new()));
    let mut m =
        ImapMover::new(server(true), '.').with_reconciler(Recorder { seen: touched.clone() });
    m.ensure_folder(&folderspec(".lists/.x")).unwrap();
    m.move_message(&action("a", Some(1), ".INBOX", ".lists/.x")).unwrap();
    m.reconcile().unwrap();

    let t = touched.borrow();
    assert!(t.contains(&".INBOX".to_string()));
    assert!(t.contains(&".lists/.x".to_string()));
}

#[test]
fn server_moves_conserve_messages() {
    for supports_move in [true, false] {
        let mut m = ImapMover::new(server(supports_move), '/');
        m.ensure_folder(&folderspec(".a")).unwrap();
        m.move_message(&action("x", Some(3), ".INBOX", ".a")).unwrap();
        assert_eq!(m.ops.uids("INBOX"), vec![1, 2]);
        assert_eq!(m.ops.uids("a").len(), 1);
        assert_eq!(m.ops.uids("nowhere").len(), 0);
    }
}

#[test]
fn fake_server_needs_a_mailbox() {
    let mut ops = server(true);
    let missing = ops.select("nope").unwrap_err();
    assert!(missing.to_string().contains("nope"));
    let unselected = server(true).uid_exists(1).unwrap_err();
    assert_eq!(unselected.to_string(), "no mailbox selected");
}

#[test]
fn delimiter_is_probed() {
    assert_eq!(choose_delimiter(&vec![None, Some("/".to_string())]), '/');
    assert_eq!(choose_delimiter(&vec![]), '.');
    assert!(already_exists("[ALREADYEXISTS] Mailbox already exists"));
    assert!(!already_exists("permission denied"));
}

// ---- the in-memory mover ----

fn mailbox() -> TextMap<Vec<FakeMsg>> {
    inbox(&[("a", 1), ("b", 2)])
}

fn inbox(ids: &[(&str, u32)]) -> TextMap<Vec<FakeMsg>> {
    let mut m = TextMap::new();
    m.insert(
        ".INBOX".to_string(),
        ids.iter().map(|(m, u)| FakeMsg::new(Some(m), Some(*u))).collect(),
    );
    m
}

fn count_in(fm: &FakeMover, folder: &str) -> usize {
    fm.folders.get(folder).unwrap().len()
}

#[test]
fn move_relocates_and_conserves() {
    let mut fm = FakeMover::new(mailbox());
    let before = fm.message_id_multiset();
    fm.ensure_folder(&FolderSpec {
        dotpath: ".lists/.x".into(),
        imap_name: "lists.x".into(),
        sieve_target: "lists.x".into(),
        exists: false,
    })
    .unwrap();
    assert_eq!(
        fm.move_message(&action_in("a", 1, ".INBOX", ".lists/.x")).unwrap(),
        MoveOutcome::Moved
    );
    // Conserved and moved.
    assert_eq!(fm.message_id_multiset(), before);
    assert_eq!(count_in(&fm, ".INBOX"), 1);
    assert_eq!(count_in(&fm, ".lists/.x"), 1);
}

#[test]
fn lib_re_move_is_idempotent() {
    let mut fm = FakeMover::new(mailbox());
    let a = action_in("a", 1, ".INBOX", ".lists/.x");
    assert_eq!(fm.move_message(&a).unwrap(), MoveOutcome::Moved);
    assert_eq!(fm.move_message(&a).unwrap(), MoveOutcome::AlreadyDone);
    assert_eq!(fm.total_messages(), 2);
}

#[test]
fn fail_after_injects_error() {
    let mut fm = FakeMover::new(mailbox()).failing_after(1);
    assert!(fm.move_message(&action_in("a", 1, ".INBOX", ".x")).is_ok());
    assert!(fm.move_message(&action_in("b", 2, ".INBOX", ".x")).is_err());
}

#[test]
fn identity_falls_back_to_the_uid() {
    let mut m = TextMap::new();
    m.insert(".INBOX".to_string(), vec![FakeMsg::new(None, Some(7)), FakeMsg::new(None, None)]);
    let mut fm = FakeMover::new(m);
    assert_eq!(
        fm.move_message(&action_in("whatever", 7, ".INBOX", ".x")).unwrap(),
        MoveOutcome::Moved
    );
    assert_eq!(
        fm.move_message(&action("w", None, ".INBOX", ".x")).unwrap(),
        MoveOutcome::AlreadyDone
    );
    assert_eq!(fm.message_id_multiset(), vec![None, None]);
}

// ---- the apply engine ----

fn plan(actions: Vec<MoveAction>, folders: Vec<FolderSpec>) -> Plan {
    Plan {
        plan_id: "plan-test".to_string(),
        account_root: "/tmp/x".to_string(),
        inbox: ".INBOX".to_string(),
        mover: MoverKind::Imap,
        separator: '.',
        folders_to_create: folders,
        actions,
        sieve_rules: vec![],
        sieve_text: String::new(),
        precheck: Precheck {
            universe_folders: 0,
            total_messages: 0,
            distinct_message_ids: 0,
            actions: 0,
            actions_missing_message_id: 0,
            actions_unresolved: 0,
        },
    }
}

fn to(mid: &str, uid: u32, dst: &str) -> MoveAction {
    action_in(mid, uid, ".INBOX", dst)
}

#[test]
fn happy_path_moves_and_conserves() {
    let p = plan(
        vec![to("a", 1, ".lists/.x"), to("b", 2, ".lists/.x")],
        vec![folderspec(".lists/.x")],
    );
    let mut fm = FakeMover::new(inbox(&[("a", 1), ("b", 2), ("c", 3)]));
    let before = fm.message_id_multiset();
    let mut sink = VecSink::default();

    let report = apply_plan(&p, &mut fm, &mut sink, &HashSet::new()).unwrap();
    assert!(report.ok());
    assert_eq!(report.moved, 2);
    assert_eq!(report.folders_created, 1);

    assert!(verify::no_loss(&before, &fm));
    assert_eq!(count_in(&fm, ".lists/.x"), 2);
    assert_eq!(count_in(&fm, ".INBOX"), 1);
    assert!(fm.reconciled);

    // Journal ends with Reconciled + Done and records each action's lifecycle.
    assert!(matches!(sink.0.last(), Some(JournalRecord::Done { moved: 2, .. })));
    assert!(sink.0.iter().any(|r| matches!(r, JournalRecord::ActionVerified { index: 0 })));
}

#[test]
fn dry_run_simulates_without_moving() {
    let p = plan(vec![to("a", 1, ".x"), to("b", 2, ".x")], vec![folderspec(".x")]);
    let mut mover = DryRunMover;
    let mut sink = VecSink::default();
    let report = apply_plan(&p, &mut mover, &mut sink, &HashSet::new()).unwrap();
    assert_eq!(report.simulated, 2);
    assert_eq!(report.moved, 0);
    assert!(report.ok());
    assert!(sink
        .0
        .iter()
        .any(|r| matches!(r, JournalRecord::ActionMoved { outcome, .. } if outcome == "simulated")));
}

#[test]
fn crash_then_resume_loses_nothing() {
    let p = plan(
        vec![to("a", 1, ".x"), to("b", 2, ".x"), to("c", 3, ".x"), to("d", 4, ".x")],
        vec![folderspec(".x")],
    );
    let mut fm =
        FakeMover::new(inbox(&[("a", 1), ("b", 2), ("c", 3), ("d", 4)])).failing_after(2);
    let before = fm.message_id_multiset();

    // First run crashes after 2 moves.
    let mut sink1 = VecSink::default();
    let r1 = apply_plan(&p, &mut fm, &mut sink1, &HashSet::new()).unwrap();
    assert!(!r1.ok());
    assert_eq!(r1.moved, 2);
    assert!(r1.fatal.is_some());

    let done = completed_actions(&sink1.0);
    assert_eq!(done, HashSet::from([0, 1]));

    // Resume: no more failures, skip the done ones.
    fm.fail_after = None;
    let mut sink2 = VecSink::default();
    let r2 = apply_plan(&p, &mut fm, &mut sink2, &done).unwrap();
    assert!(r2.ok());
    assert_eq!(r2.skipped, 2);
    assert_eq!(r2.moved, 2);

    // Nothing lost, nothing duplicated, everything filed.
    assert!(verify::no_loss(&before, &fm));
    assert_eq!(count_in(&fm, ".x"), 4);
    assert_eq!(count_in(&fm, ".INBOX"), 0);
}

#[test]
fn rerun_without_resume_set_is_still_idempotent() {
    // Even if the resume set is lost, re-running the whole plan must not duplicate:
    // the mover reports AlreadyDone for messages no longer in the source.
    let p = plan(vec![to("a", 1, ".x"), to("b", 2, ".x")], vec![folderspec(".x")]);
    let mut fm = FakeMover::new(inbox(&[("a", 1), ("b", 2)]));
    let before = fm.message_id_multiset();

    apply_plan(&p, &mut fm, &mut VecSink::default(), &HashSet::new()).unwrap();
    let r2 = apply_plan(&p, &mut fm, &mut VecSink::default(), &HashSet::new()).unwrap();

    assert_eq!(r2.skipped, 2, "second run finds everything already done");
    assert_eq!(r2.moved, 0);
    assert!(verify::no_loss(&before, &fm));
    assert!(verify::each_message_once(&fm));
    assert_eq!(fm.total_messages(), 2);
}

/// Takes a number of records, then fails.
struct Brittle {
    left: usize,
}

impl RecordSink for Brittle {
    fn emit(&mut self, _rec: &JournalRecord) -> Result<(), Error> {
        if self.left == 0 {
            return Err(Error::new("disk full".to_string()));
        }
        self.left -= 1;
        Ok(())
    }
}

#[test]
fn journal_failure_stops_before_the_move() {
    // One record for the plan, one for the folder; the announcement of the move fails.
    let p = plan(vec![to("a", 1, ".x")], vec![folderspec(".x")]);
    let mut fm = FakeMover::new(inbox(&[("a", 1)]));
    let err = apply_plan(&p, &mut fm, &mut Brittle { left: 2 }, &HashSet::new()).unwrap_err();
    assert_eq!(err.to_string(), "disk full");
    assert_eq!(count_in(&fm, ".INBOX"), 1, "an unannounced move is not attempted");
}

/// Takes a number of records, then keeps no more, perhaps the one it fails at.
struct Torn {
    kept: Vec<JournalRecord>,
    left: usize,
    keeps_last: bool,
}

impl RecordSink for Torn {
    fn emit(&mut self, rec: &JournalRecord) -> Result<(), Error> {
        if self.left == 0 {
            if self.keeps_last {
                self.kept.push(rec.clone());
            }
            return Err(Error::new("disk full".to_string()));
        }
        self.left -= 1;
        self.kept.push(rec.clone());
        Ok(())
    }
}

#[test]
fn resume_after_a_crash_anywhere_in_the_journal() {
    let p = plan(
        vec![to("a", 1, ".x"), to("b", 2, ".y"), to("c", 3, ".x")],
        vec![folderspec(".x"), folderspec(".y")],
    );
    let mailbox = || FakeMover::new(inbox(&[("a", 1), ("b", 2), ("c", 3), ("d", 4)]));
    let mut whole = mailbox();
    let mut sink = VecSink::default();
    apply_plan(&p, &mut whole, &mut sink, &HashSet::new()).unwrap();
    let records = sink.0.len();
    assert_eq!(records, 14);
    for left in 0..records {
        for keeps_last in [false, true] {
            let mut fm = mailbox();
            let before = fm.message_id_multiset();
            let mut torn = Torn { kept: vec![], left, keeps_last };
            assert!(apply_plan(&p, &mut fm, &mut torn, &HashSet::new()).is_err());
            let done = completed_actions(&torn.kept);
            let moved = 4 - count_in(&fm, ".INBOX");
            assert!(done.iter().all(|i| *i < done.len()), "the first actions are done");
            assert!(moved == done.len() || moved == done.len() + 1);

            let report = apply_plan(&p, &mut fm, &mut VecSink::default(), &done).unwrap();
            assert!(report.ok());
            assert_eq!(report.moved, 3 - moved);
            for folder in [".INBOX", ".x", ".y"] {
                assert_eq!(fm.folders.get(folder), whole.folders.get(folder), "{left}");
            }
            assert!(verify::no_loss(&before, &fm));
            assert!(verify::each_message_once(&fm));
        }
    }
}

#[test]
fn crash_between_the_move_and_its_record() {
    // The plan, the announcement; then the move happens and its record is lost.
    let p = plan(vec![to("a", 1, ".x"), to("b", 2, ".x")], vec![]);
    let mut fm = FakeMover::new(inbox(&[("a", 1), ("b", 2)]));
    let mut torn = Torn { kept: vec![], left: 2, keeps_last: false };
    apply_plan(&p, &mut fm, &mut torn, &HashSet::new()).unwrap_err();
    assert_eq!((count_in(&fm, ".INBOX"), count_in(&fm, ".x")), (1, 1));
    let done = completed_actions(&torn.kept);
    assert!(done.is_empty(), "the journal does not know of the move");

    let report = apply_plan(&p, &mut fm, &mut VecSink::default(), &done).unwrap();
    assert_eq!((report.moved, report.skipped), (1, 1));
    assert_eq!((count_in(&fm, ".INBOX"), count_in(&fm, ".x")), (0, 2));
}

#[test]
fn tee_hands_on_to_every_sink() {
    let mut tee = Tee::new(vec![Box::new(VecSink::default()), Box::new(Brittle { left: 1 })]);
    assert!(tee.emit(&JournalRecord::Reconciled).is_ok());
    assert_eq!(
        tee.emit(&JournalRecord::Reconciled).unwrap_err().to_string(),
        "disk full"
    );
}

#[test]
fn journal_spells_out_each_step() {
    let p = plan(vec![to("a", 1, ".x"), to("z", 9, ".x")], vec![]);
    let mut fm = FakeMover::new(inbox(&[("a", 1)]));
    let mut sink = VecSink::default();
    apply_plan(&p, &mut fm, &mut sink, &HashSet::new()).unwrap();
    let expected = vec![
        JournalRecord::PlanLoaded { plan_id: "plan-test".to_string(), actions: 2 },
        JournalRecord::ActionBegin {
            index: 0,
            message_id: Some("a".to_string()),
            src_folder: ".INBOX".to_string(),
            uid: Some(1),
            dst: ".x".to_string(),
        },
        JournalRecord::ActionMoved { index: 0, outcome: "moved".to_string() },
        JournalRecord::ActionVerified { index: 0 },
        JournalRecord::ActionBegin {
            index: 1,
            message_id: Some("z".to_string()),
            src_folder: ".INBOX".to_string(),
            uid: Some(9),
            dst: ".x".to_string(),
        },
        JournalRecord::ActionSkipped { index: 1, reason: "already at destination".to_string() },
        JournalRecord::Reconciled,
        JournalRecord::Done { moved: 1, skipped: 1, simulated: 0, failed: 0 },
    ];
    assert_eq!(sink.0, expected);
    assert_eq!(completed_actions(&sink.0), HashSet::from([0, 1]));
}

#[test]
fn duplicated_message_is_noticed() {
    let mut m = inbox(&[("a", 1)]);
    m.insert(".x".to_string(), vec![FakeMsg::new(Some("a"), Some(5))]);
    let fm = FakeMover::new(m);
    assert!(!verify::each_message_once(&fm));
    assert!(verify::message_ids_conserved(&[Some("a".to_string()), Some("a".to_string())], &fm));
    assert!(!verify::no_loss(&[Some("a".to_string()), Some("a".to_string())], &fm));
}

#[test]
fn journal_lines_skip_blanks() {
    assert_eq!(record_lines("{a}\n\n  \n{b}"), vec!["{a}".to_string(), "{b}".to_string()]);
}
