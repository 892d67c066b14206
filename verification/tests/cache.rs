use std::collections::{BTreeMap, BTreeSet, HashSet};

use mail_util::cli::{
    account_root, counted_folders, existing_folders, scan_output, select_folders, suggest_inbox, FolderSummary,
};
use mail_util::journal::engine::apply_plan;
use mail_util::journal::record::{JournalRecord, VecSink};
use mail_util::local::{Event, LocalMover, Request};
use mail_util::mockcache::{MockCache, MockFile, MsgBuilder};
use mail_util::model::{
    Cluster, Confidence, Config, Destination, Message, MessageHeaders, MoveAction, MoverKind, Plan,
    Signal,
};
use mail_util::mover::{DryRunMover, MoveOutcome};
use mail_util::namemap::NameMap;
use mail_util::plan::{
    build_plan, choose_clusters, may_apply, verify_plan, Approval, PlanRequest,
};
use mail_util::reconcile::NoReconciler;
use mail_util::scan::{Account, FileEntry, FolderRef, WalkEntry};
use mail_util::suggest::{suggest, ExistingFolder};

// ---- an in-memory file system ----

const ROOT: &str = "/acct/maildir";

struct Disk {
    files: BTreeMap<String, Vec<u8>>,
    dirs: BTreeSet<String>,
}

impl Disk {
    fn new() -> Disk {
        let mut d = Disk { files: BTreeMap::new(), dirs: BTreeSet::new() };
        d.make_dir(ROOT);
        d
    }

    fn make_dir(&mut self, path: &str) {
        for (i, c) in path.char_indices() {
            if c == '/' && i > 0 {
                self.dirs.insert(path[..i].to_string());
            }
        }
        self.dirs.insert(path.to_string());
    }

    fn write(&mut self, file: &MockFile) {
        self.files.insert(file.path.clone(), file.contents.clone().into_bytes());
    }

    fn walk(&self) -> Vec<WalkEntry> {
        let entry = |path: &String, is_dir: bool| WalkEntry {
            path: path.clone(),
            name: path.rsplit('/').next().unwrap().to_string(),
            is_dir,
            has_cur: self.dirs.contains(&format!("{path}/cur")),
        };
        let dirs = self.dirs.iter().filter(|d| d.starts_with(ROOT)).map(|d| entry(d, true));
        dirs.chain(self.files.keys().map(|f| entry(f, false))).collect()
    }

    fn entries(&self, dir: &str) -> Vec<FileEntry> {
        let start = format!("{dir}/");
        self.files
            .iter()
            .filter_map(|(path, bytes)| {
                let name = path.strip_prefix(&start)?;
                if name.contains('/') {
                    return None;
                }
                Some(FileEntry { name: name.to_string(), is_file: true, head: Some(bytes.clone()) })
            })
            .collect()
    }

    fn names(&self, dir: &str) -> Vec<String> {
        self.entries(dir).into_iter().map(|e| e.name).collect()
    }

    fn count(&self, f: &FolderRef) -> usize {
        f.message_count(
            &self.entries(&format!("{}/cur", f.dir)),
            &self.entries(&format!("{}/new", f.dir)),
        )
    }

    fn messages(&self, f: &FolderRef) -> Vec<Message> {
        f.messages(
            &self.entries(&format!("{}/cur", f.dir)),
            &self.entries(&format!("{}/new", f.dir)),
        )
    }
}

/// A synthetic cache on that disk.
struct Cache {
    mock: MockCache,
    disk: Disk,
}

impl Cache {
    fn new() -> Cache {
        Cache { mock: MockCache::new(ROOT), disk: Disk::new() }
    }

    fn folder(&mut self, dotpath: &str) {
        let f = self.mock.folder(dotpath);
        for d in &f.dirs {
            self.disk.make_dir(d);
        }
        if !self.disk.files.contains_key(&f.uidvalidity.path) {
            self.disk.write(&f.uidvalidity);
        }
    }

    fn message(&mut self, dotpath: &str) -> MsgBuilder {
        self.folder(dotpath);
        self.mock.message(dotpath)
    }

    fn write(&mut self, m: MsgBuilder) -> String {
        let written = m.write(&mut self.mock);
        self.disk.write(&written.file);
        written.filename
    }

    fn folders(&self) -> Vec<FolderRef> {
        Account::new(ROOT).folders(&self.disk.walk())
    }

    fn inbox(&self) -> Vec<Message> {
        self.disk.messages(&Account::new(ROOT).folder(".INBOX"))
    }
}

// ---- scores ----

fn strength(signal: Signal) -> f64 {
    signal.strength_tenths() as f64 / 10.0
}

fn score(count: usize, signal: Signal, reused: bool) -> f64 {
    let volume = ((count as f64) + 1.0).ln();
    let reuse_bonus = if reused { 0.5 } else { 0.0 };
    volume + strength(signal) * 2.0 + reuse_bonus
}

/// The order key of a score that is not negative.
fn key(count: usize, signal: Signal, reused: bool) -> u64 {
    score(count, signal, reused).to_bits() | (1 << 63)
}

#[test]
fn strengths_and_scores() {
    assert_eq!(strength(Signal::ListId), 1.0);
    assert_eq!(strength(Signal::SenderDomain), 0.6);
    assert_eq!(strength(Signal::PersonAddress), 0.5);
    assert!(key(5, Signal::ListId, true) > key(5, Signal::ListId, false));
    assert!(key(0, Signal::SenderDomain, false) > 0.0f64.to_bits() | (1 << 63));
}

// ---- synthetic caches ----

#[test]
fn builds_native_filenames() {
    let mut mc = Cache::new();
    let m = mc.message(".INBOX").uid(10).from("a@b.com").list_id("x.list").flags("S");
    let fname = mc.write(m);
    assert!(fname.contains(",U=10:2,S"), "got {fname}");
    assert!(mc.disk.files.contains_key(&format!("{}/.INBOX/cur/{fname}", mc.mock.root())));
    assert!(mc.disk.files.contains_key(&format!("{}/.INBOX/.uidvalidity", mc.mock.root())));
}

#[test]
fn fresh_local_message_has_no_uid_segment() {
    let mut mc = Cache::new();
    let m = mc.message(".INBOX").from("a@b.com");
    let fname = mc.write(m);
    assert!(!fname.contains(",U="), "got {fname}");
}

#[test]
fn synthetic_message_is_spelled_out() {
    let mut mc = MockCache::new("/r");
    let m = mc
        .message(".x")
        .uid(7)
        .from("a@b.com")
        .from_name("Ann")
        .list_id("l.x")
        .subject("hi")
        .message_id("m1")
        .header("To", "me@x")
        .flags("FS")
        .in_new()
        .write(&mut mc);
    assert_eq!(m.filename, "1700000000.1_7.mock,U=7:2,FS");
    assert_eq!(m.file.path, "/r/.x/new/1700000000.1_7.mock,U=7:2,FS");
    assert_eq!(
        m.file.contents,
        "From: Ann <a@b.com>\r\nSubject: hi\r\nMessage-ID: <m1>\r\nList-Id: <l.x>\r\n\
         List-Unsubscribe: <mailto:unsub@example.com>\r\nTo: me@x\r\n\r\n\
         This is a mock message body.\r\n"
    );
    let plain = mc.message(".x").write(&mut mc);
    assert_eq!(plain.filename, "1700000000.2_2.mock:2,S");
    assert_eq!(
        plain.file.contents,
        "From: someone@example.com\r\nSubject: test message\r\nMessage-ID: <mock-2@example.com>\r\n\
         \r\nThis is a mock message body.\r\n"
    );
    assert_eq!(mc.set_uidvalidity(".x", 5, 6).contents, "5\n6\n");
    assert_eq!(mc.folder(".x").uidvalidity.contents, "1700000000\n0\n");
}

// ---- scanning ----

#[test]
fn scans_folder_messages_and_uids() {
    let mut disk = Disk::new();
    disk.make_dir("/acct/maildir/.INBOX/tmp");
    disk.make_dir("/acct/maildir/.INBOX/cur");
    disk.make_dir("/acct/maildir/.INBOX/new");
    disk.files.insert(
        "/acct/maildir/.INBOX/cur/1.host,U=10:2,S".to_string(),
        b"From: a@b.com\nList-Id: <x.list>\n\nbody".to_vec(),
    );
    disk.files.insert(
        "/acct/maildir/.INBOX/new/2.host,U=11:2,".to_string(),
        b"From: c@d.com\n\nbody".to_vec(),
    );

    let acct = Account::new(ROOT);
    let folders = acct.folders(&disk.walk());
    assert_eq!(folders.len(), 1);
    assert_eq!(folders[0].dotpath, ".INBOX");
    assert_eq!(disk.count(&folders[0]), 2);

    let msgs = disk.messages(&folders[0]);
    assert_eq!(msgs.len(), 2);
    assert_eq!(msgs[0].uid, Some(10));
    assert_eq!(msgs[0].headers.list_id.as_deref(), Some("x.list"));
    assert_eq!(msgs[1].uid, Some(11));
    assert!(msgs[1].is_new);
}

#[test]
fn nested_folder_dotpath() {
    let mut disk = Disk::new();
    for s in ["cur", "new", "tmp"] {
        disk.make_dir(&format!("/acct/maildir/.lists/.elixir/{s}"));
    }
    // .lists itself is also a folder container with cur/
    disk.make_dir("/acct/maildir/.lists/cur");

    let acct = Account::new(ROOT);
    let dotpaths: Vec<_> = acct.folders(&disk.walk()).into_iter().map(|f| f.dotpath).collect();
    assert!(dotpaths.contains(&".lists".to_string()));
    assert!(dotpaths.contains(&".lists/.elixir".to_string()));
}

#[test]
fn listing_order_does_not_matter() {
    let mut mc = build_mock();
    mc.folder(".lists/.b");
    mc.folder(".lists/.a");
    let account = Account::new(ROOT);
    let mut walk = mc.disk.walk();
    let folders = account.folders(&walk);
    walk.reverse();
    assert_eq!(account.folders(&walk), folders);
    let names: Vec<&str> = folders.iter().map(|f| f.dotpath.as_str()).collect();
    assert_eq!(names, vec![".INBOX", ".lists/.a", ".lists/.b"]);

    let inbox = account.folder(".INBOX");
    let mut cur = mc.disk.entries(&format!("{}/cur", inbox.dir));
    let messages = inbox.messages(&cur, &[]);
    cur.reverse();
    assert_eq!(inbox.messages(&cur, &[]), messages);
    let uids: Vec<Option<u32>> = messages.iter().map(|m| m.uid).collect();
    assert_eq!(uids, vec![Some(1), Some(2), Some(3), Some(4), Some(99)]);
}

#[test]
fn dotfiles_and_unreadable_files() {
    let entries = vec![
        FileEntry { name: ".hidden".to_string(), is_file: true, head: Some(vec![]) },
        FileEntry { name: "sub".to_string(), is_file: false, head: None },
        FileEntry { name: "odd".to_string(), is_file: true, head: None },
    ];
    let f = Account::new(ROOT).folder(".x");
    assert_eq!(f.message_count(&entries, &[]), 1, "an unreadable message still counts");
    assert_eq!(f.messages(&entries, &[]).len(), 0);
}

#[test]
fn dotpaths_are_as_written_below_the_root() {
    let below = |root: &str, dir: &str| Account::new(root).dotpath_of(dir);
    assert_eq!(below("/a", "/a/.b/.c").as_deref(), Some(".b/.c"));
    assert_eq!(below("/a/", "//a//.b/").as_deref(), Some(".b"));
    assert_eq!(below("/a", "/a/./b//c/.").as_deref(), Some("b//c"));
    assert_eq!(below("/", "/a").as_deref(), Some("a"));
    assert_eq!(below("", "/a/b/").as_deref(), Some("/a/b"));
    assert_eq!(below("", "/").as_deref(), Some("/"));
    assert_eq!(below("x", "./x"), None);
    assert_eq!(below("/a", "/a"), None);
    assert_eq!(below("/a", "/a/."), None);
    assert_eq!(below("/a", "/ab/c"), None);
    assert_eq!(below("/a", ""), None);
    // The same as what the standard library makes of such paths.
    let pairs =
        [("/a", "/a/./b//c/."), ("", "/"), ("", "./a/"), ("/", "//a/../b"), (".", "./a")];
    for (root, dir) in pairs {
        let std = std::path::Path::new(dir).strip_prefix(root).unwrap();
        assert_eq!(below(root, dir).as_deref(), std.to_str(), "{root} {dir}");
    }
}

// ---- suggestions ----

fn msg(uid: u32, from: &str, list_id: Option<&str>, subject: &str) -> Message {
    let mut h = MessageHeaders::default();
    h.from_addr = Some(from.to_string());
    h.list_id = list_id.map(|s| s.to_string());
    h.is_list_mail = list_id.is_some();
    h.subject = Some(subject.to_string());
    Message {
        folder: ".INBOX".to_string(),
        uid: Some(uid),
        filename: format!("f{uid}"),
        is_new: false,
        message_id: Some(format!("mid{uid}")),
        headers: h,
    }
}

fn cfg() -> Config {
    Config { min_count: 3, ..Config::default() }
}

#[test]
fn clusters_by_list_id() {
    let msgs: Vec<_> = (0..5)
        .map(|i| msg(i, "bounce@lists.example.com", Some("elixir.groups.io"), "hi"))
        .collect();
    let clusters = suggest(&msgs, &[], &cfg(), key);
    assert_eq!(clusters.len(), 1);
    let c = &clusters[0];
    assert_eq!(c.signal, Signal::ListId);
    assert_eq!(c.count, 5);
    assert_eq!(c.confidence, Confidence::High);
    assert_eq!(c.destination, Destination::New { dotpath: ".lists/.elixir".into() });
    assert_eq!(c.uids.len(), 5);
}

#[test]
fn clusters_by_domain() {
    let msgs: Vec<_> =
        (0..4).map(|i| msg(i, &format!("no-reply{i}@github.com"), None, "PR")).collect();
    let clusters = suggest(&msgs, &[], &cfg(), key);
    assert_eq!(clusters.len(), 1);
    assert_eq!(clusters[0].signal, Signal::SenderDomain);
    assert_eq!(
        clusters[0].destination,
        Destination::New { dotpath: ".vendors/.github".into() }
    );
}

#[test]
fn freemail_clusters_by_person() {
    let msgs: Vec<_> = (0..3).map(|i| msg(i, "jane.doe@gmail.com", None, "hi")).collect();
    let clusters = suggest(&msgs, &[], &cfg(), key);
    assert_eq!(clusters[0].signal, Signal::PersonAddress);
    assert_eq!(
        clusters[0].destination,
        Destination::New { dotpath: ".people/.jane-doe".into() }
    );
}

#[test]
fn reuses_existing_folder() {
    let msgs: Vec<_> =
        (0..5).map(|i| msg(i, "b@l.com", Some("elixir.groups.io"), "hi")).collect();
    let existing = vec![ExistingFolder::new(".lists/.elixir")];
    let clusters = suggest(&msgs, &existing, &cfg(), key);
    assert_eq!(
        clusters[0].destination,
        Destination::Existing { dotpath: ".lists/.elixir".into() }
    );
}

#[test]
fn below_min_count_dropped() {
    let msgs = vec![msg(1, "a@github.com", None, "x")];
    assert!(suggest(&msgs, &[], &cfg(), key).is_empty());
}

#[test]
fn deterministic_ordering() {
    let mut msgs = Vec::new();
    for i in 0..10 {
        msgs.push(msg(i, "a@github.com", None, "x"));
    }
    for i in 10..14 {
        msgs.push(msg(i, "b@l.com", Some("list.example.com"), "y"));
    }
    let a = suggest(&msgs, &[], &cfg(), key);
    let b = suggest(&msgs, &[], &cfg(), key);
    assert_eq!(a, b);
    // List-Id (strength 1.0) should outrank domain despite lower count.
    assert_eq!(a[0].signal, Signal::ListId);
}

#[test]
fn samples_and_confidence() {
    let msgs: Vec<_> = (0..20)
        .map(|i| msg(i, &format!("u{}@github.com", i % 4), None, &format!("s{}", i % 5)))
        .collect();
    let c = &suggest(&msgs, &[], &cfg(), key)[0];
    assert_eq!(c.sample_senders, vec!["u0@github.com", "u1@github.com", "u2@github.com"]);
    assert_eq!(c.sample_subjects, vec!["s0", "s1", "s2"]);
    assert_eq!(c.confidence, Confidence::High);
    assert_eq!(suggest(&msgs[..19], &[], &cfg(), key)[0].confidence, Confidence::Medium);
}

#[test]
fn opaque_lists_take_a_readable_name() {
    let blob = "9d03786bc12364dc5eca9fb32.list-id.mcsv.net";
    let mut named: Vec<_> = (0..3).map(|i| msg(i, "x@shop.com", Some(blob), "s")).collect();
    assert_eq!(suggest(&named, &[], &cfg(), key)[0].destination.dotpath(), ".lists/.shop");
    named[1].headers.from_name = Some("Daily News".to_string());
    assert_eq!(suggest(&named, &[], &cfg(), key)[0].destination.dotpath(), ".lists/.daily-news");
}

#[test]
fn existing_work_folder_is_reused() {
    let msgs: Vec<_> = (0..3).map(|i| msg(i, "boss@corp.example", None, "s")).collect();
    let config = Config { work_domains: vec!["corp.example".to_string()], ..cfg() };
    let work = vec![ExistingFolder::new(".other"), ExistingFolder::new(".work")];
    let c = &suggest(&msgs, &work, &config, key)[0];
    assert_eq!(c.destination, Destination::Existing { dotpath: ".work".into() });
    assert_eq!(c.score, key(3, Signal::SenderDomain, true), "reuse counts in the score");
    // A folder named after the sender comes first.
    let named = vec![ExistingFolder::new(".work"), ExistingFolder::new(".vendors/.corp")];
    let c = &suggest(&msgs, &named, &config, key)[0];
    assert_eq!(c.destination, Destination::Existing { dotpath: ".vendors/.corp".into() });
    // Elsewhere, a folder that happens to be called `work` is not the one.
    let below = vec![ExistingFolder::new(".old/.work")];
    let c = &suggest(&msgs, &below, &config, key)[0];
    assert_eq!(c.destination, Destination::New { dotpath: ".work".into() });
}

#[test]
fn work_domains_go_to_work() {
    let msgs: Vec<_> = (0..3).map(|i| msg(i, "boss@corp.example", None, "s")).collect();
    let config = Config { work_domains: vec!["corp.example".to_string()], ..cfg() };
    assert_eq!(suggest(&msgs, &[], &config, key)[0].destination.dotpath(), ".work");
    let made = &suggest(&msgs, &[], &config, key)[0];
    assert_eq!(made.destination, Destination::New { dotpath: ".work".into() });
    let strict = Config { min_score: u64::MAX, ..cfg() };
    assert!(suggest(&msgs, &[], &strict, key).is_empty());
}

#[test]
fn new_folders_have_names_that_read_back() {
    let msgs: Vec<_> = (0..3).map(|i| msg(i, "jane.doe@gmail.com", None, "hi")).collect();
    let found = suggest(&msgs, &[], &cfg(), key);
    for sep in ['.', '/'] {
        let names = NameMap::new(sep);
        let dotpath = found[0].destination.dotpath();
        assert_eq!(names.imap_to_dotpath(&names.dotpath_to_imap(dotpath)), dotpath);
    }
}

#[test]
fn scan_then_suggest_on_mock_cache() {
    let mut mc = Cache::new();

    // A mailing list (should propose .lists/.elixir).
    for uid in 1..=8u32 {
        let m = mc
            .message(".INBOX")
            .uid(uid)
            .from("bounce@elixir-lang.groups.io")
            .list_id("elixir-lang.groups.io")
            .subject(&format!("[elixir] topic {uid}"));
        mc.write(m);
    }
    // A vendor domain (should propose .vendors/.github).
    for uid in 20..=26u32 {
        let m = mc
            .message(".INBOX")
            .uid(uid)
            .from(&format!("notifications{uid}@github.com"))
            .subject("PR update");
        mc.write(m);
    }
    // A person via freemail (should propose .people/.jane-doe).
    for uid in 40..=45u32 {
        let m = mc
            .message(".INBOX")
            .uid(uid)
            .from("jane.doe@gmail.com")
            .from_name("Jane Doe")
            .subject("dinner?");
        mc.write(m);
    }
    // Noise below threshold: must NOT be surfaced.
    let m = mc.message(".INBOX").uid(99).from("random@nowhere.example");
    mc.write(m);

    // An existing taxonomy folder that should be reused instead of created.
    mc.folder(".lists/.la-ruby");
    for uid in 1..=3u32 {
        let m = mc.message(".lists/.la-ruby").uid(uid).from("x@laruby.org");
        mc.write(m);
    }

    let account = Account::new(mc.mock.root());
    let inbox = account.folder(".INBOX");
    assert_eq!(mc.disk.count(&inbox), 8 + 7 + 6 + 1);

    let messages = mc.disk.messages(&inbox);
    let existing: Vec<ExistingFolder> = mc
        .folders()
        .iter()
        .filter(|f| f.dotpath != ".INBOX")
        .map(|f| ExistingFolder::new(&f.dotpath))
        .collect();

    let config = Config { min_count: 5, ..Config::default() };
    let clusters = suggest(&messages, &existing, &config, key);

    // Three clusters surfaced; the singleton is dropped.
    assert_eq!(clusters.len(), 3, "clusters: {clusters:#?}");

    // List-Id cluster ranks first (strongest signal) and proposes a new .lists folder.
    let top = &clusters[0];
    assert_eq!(top.signal, Signal::ListId);
    assert_eq!(top.destination, Destination::New { dotpath: ".lists/.elixir-lang".into() });
    assert_eq!(top.count, 8);
    assert_eq!(top.uids.len(), 8);

    let by_dest = |d: &str| clusters.iter().find(|c| c.destination.dotpath() == d);
    assert!(by_dest(".vendors/.github").is_some());
    assert!(by_dest(".people/.jane-doe").is_some());

    // Determinism: identical inputs -> identical output.
    assert_eq!(clusters, suggest(&messages, &existing, &config, key));
}

// ---- the offline mover ----

/// What goes wrong in a file system.
#[derive(Clone, Copy, PartialEq)]
enum Fault {
    Nothing,
    WriteFails,
    WriteGarbles,
    RemoveFails,
}

fn perform(disk: &mut Disk, bytes: &[u8], request: &Request, fault: Fault) -> Event {
    match request {
        Request::IsFile(p) => Event::Answer(disk.files.contains_key(p)),
        Request::Read(p) => match disk.files.get(p) {
            Some(b) => Event::Content(b.clone()),
            None => Event::Failed("not found".to_string()),
        },
        Request::Clock => Event::Time(1_730_000_000, 42),
        Request::MakeDir(p) => {
            disk.make_dir(p);
            Event::Done
        }
        Request::Create(p) => {
            disk.files.insert(p.clone(), Vec::new());
            Event::Done
        }
        Request::WriteSync(p) => match fault {
            Fault::WriteFails => Event::Failed("no space left".to_string()),
            Fault::WriteGarbles => {
                disk.files.insert(p.clone(), b"garbage".to_vec());
                Event::Done
            }
            _ => {
                disk.files.insert(p.clone(), bytes.to_vec());
                Event::Done
            }
        },
        Request::Rename(a, b) => {
            let held = disk.files.remove(a).unwrap();
            disk.files.insert(b.clone(), held);
            Event::Done
        }
        Request::SyncDir(_) => Event::Failed("cannot sync a directory".to_string()),
        Request::Remove(p) => {
            if fault == Fault::RemoveFails {
                return Event::Failed("busy".to_string());
            }
            disk.files.remove(p);
            Event::Done
        }
        Request::Finish(_) => unreachable!(),
    }
}

fn run_move(
    m: &mut LocalMover<NoReconciler>,
    disk: &mut Disk,
    action: &MoveAction,
    fault: Fault,
) -> Result<MoveOutcome, String> {
    let (mut mv, mut request) = m.start(action);
    loop {
        if let Request::Finish(r) = request {
            return r.map_err(|e| e.to_string());
        }
        let event = perform(disk, &mv.bytes, &request, fault);
        let next = m.step(mv, event);
        mv = next.0;
        request = next.1;
    }
}

fn local_action(filename: &str, uid: u32, dst: &str) -> MoveAction {
    MoveAction {
        message_id: Some(format!("mid{uid}")),
        src_folder: ".INBOX".to_string(),
        uid: Some(uid),
        src_filename: filename.to_string(),
        dst_dotpath: dst.to_string(),
        dst_imap: String::new(),
        cluster_key: "k".to_string(),
    }
}

fn ensure(m: &mut LocalMover<NoReconciler>, disk: &mut Disk, dotpath: &str) {
    for d in m.folder_dirs(dotpath) {
        disk.make_dir(&d);
    }
    m.folder_made(dotpath);
}

#[test]
fn moves_locally_with_fresh_uidless_name() {
    let mut mc = Cache::new();
    let b = mc.message(".INBOX").uid(10).from("a@b.com").flags("PS");
    let fname = mc.write(b);
    let src_path = format!("{ROOT}/.INBOX/cur/{fname}");
    let original = mc.disk.files[&src_path].clone();

    let mut m = LocalMover::new(ROOT, "mailutil-1");
    ensure(&mut m, &mut mc.disk, ".lists/.x");
    let a = local_action(&fname, 10, ".lists/.x");
    let out = run_move(&mut m, &mut mc.disk, &a, Fault::Nothing).unwrap();
    assert_eq!(out, MoveOutcome::Moved);

    // Source gone.
    assert!(!mc.disk.files.contains_key(&src_path), "source file should be removed");

    // Destination has exactly one file, with NO ,U= and the flags preserved.
    let dst = mc.disk.names(&format!("{ROOT}/.lists/.x/cur"));
    assert_eq!(dst.len(), 1, "one file in destination: {dst:?}");
    let name = &dst[0];
    assert!(!name.contains(",U="), "moved file must not carry a ,U= UID: {name}");
    assert!(name.ends_with(":2,PS"), "flags preserved: {name}");
    assert_eq!(name, "1730000000.42_0.mailutil-1:2,PS");

    // Bytes are byte-identical to the original.
    let moved = &mc.disk.files[&format!("{ROOT}/.lists/.x/cur/{name}")];
    assert_eq!(*moved, original, "message bytes must be preserved exactly");
    assert!(mc.disk.names(&format!("{ROOT}/.lists/.x/tmp")).is_empty());
    assert!(m.touched().contains(".INBOX") && m.touched().contains(".lists/.x"));
}

#[test]
fn local_re_move_is_idempotent() {
    let mut mc = Cache::new();
    let b = mc.message(".INBOX").uid(11).from("a@b.com");
    let fname = mc.write(b);
    let mut m = LocalMover::new(ROOT, "h");
    ensure(&mut m, &mut mc.disk, ".lists/.x");
    let a = local_action(&fname, 11, ".lists/.x");
    assert_eq!(run_move(&mut m, &mut mc.disk, &a, Fault::Nothing).unwrap(), MoveOutcome::Moved);
    // Second time the source is gone: no-op, not an error, no duplicate.
    assert_eq!(
        run_move(&mut m, &mut mc.disk, &a, Fault::Nothing).unwrap(),
        MoveOutcome::AlreadyDone
    );
    assert_eq!(mc.disk.names(&format!("{ROOT}/.lists/.x/cur")).len(), 1);
}

#[test]
fn conserves_messages_across_a_move() {
    let mut mc = Cache::new();
    let b1 = mc.message(".INBOX").uid(1);
    let f1 = mc.write(b1);
    let b2 = mc.message(".INBOX").uid(2);
    let f2 = mc.write(b2);
    let b3 = mc.message(".INBOX").uid(3);
    let _keep = mc.write(b3);

    let count = |d: &Disk, p: &str| d.names(&format!("{ROOT}/{p}/cur")).len();
    let before = count(&mc.disk, ".INBOX");
    assert_eq!(before, 3);

    let mut m = LocalMover::new(ROOT, "h");
    ensure(&mut m, &mut mc.disk, ".lists/.x");
    run_move(&mut m, &mut mc.disk, &local_action(&f1, 1, ".lists/.x"), Fault::Nothing).unwrap();
    run_move(&mut m, &mut mc.disk, &local_action(&f2, 2, ".lists/.x"), Fault::Nothing).unwrap();

    // Total conserved: 1 left in inbox, 2 in destination.
    assert_eq!(count(&mc.disk, ".INBOX"), 1);
    assert_eq!(count(&mc.disk, ".lists/.x"), 2);
}

#[test]
fn ensure_folder_creates_maildir_dirs() {
    let mut mc = Cache::new();
    let mut m = LocalMover::new(ROOT, "h");
    ensure(&mut m, &mut mc.disk, ".vendors/.new-one");
    for sub in ["cur", "new", "tmp"] {
        assert!(mc.disk.dirs.contains(&format!("{ROOT}/.vendors/.new-one/{sub}")), "missing {sub}");
    }
    assert!(m.touched().contains(".vendors/.new-one"));
}

#[test]
fn faults_never_lose_the_message() {
    for (fault, complaint) in [
        (Fault::WriteFails, "no space left"),
        (
            Fault::WriteGarbles,
            "verification failed: destination bytes differ for \
             /acct/maildir/.x/cur/1730000000.42_0.h:2,S",
        ),
        (Fault::RemoveFails, "removing source "),
    ] {
        let mut mc = Cache::new();
        let b = mc.message(".INBOX").uid(5).in_new();
        let fname = mc.write(b);
        let src = format!("{ROOT}/.INBOX/new/{fname}");
        let original = mc.disk.files[&src].clone();
        let mut m = LocalMover::new(ROOT, "h");
        let err =
            run_move(&mut m, &mut mc.disk, &local_action(&fname, 5, ".x"), fault).unwrap_err();
        assert!(err.starts_with(complaint), "{err}");
        assert_eq!(mc.disk.files[&src], original);
        assert_eq!(m.touched().len(), 0);
    }
}

#[test]
fn unexpected_answers_end_a_move() {
    let mut m = LocalMover::new(ROOT, "h");
    let (mv, _) = m.start(&local_action("f", 1, ".x"));
    let (_, request) = m.step(mv, Event::Done);
    assert!(matches!(request, Request::Finish(Err(_))));
}

// ---- plans ----

fn build_mock() -> Cache {
    let mut mc = Cache::new();
    // A mailing list large enough to surface.
    for uid in 1..=4u32 {
        let m = mc
            .message(".INBOX")
            .uid(uid)
            .from("bounce@elixir-lang.groups.io")
            .list_id("elixir.groups.io")
            .subject(&format!("topic {uid}"));
        mc.write(m);
    }
    // Noise below threshold.
    let m = mc.message(".INBOX").uid(99).from("random@nowhere.example");
    mc.write(m);
    mc
}

fn plan_for(mc: &Cache, approved: Option<Vec<Approval>>) -> Plan {
    let folders = mc.folders();
    let messages = mc.inbox();
    let out = suggest_inbox(ROOT, ".INBOX", &folders, &messages, &cfg(), key);
    let choices = choose_clusters(&out.clusters, &approved);
    let request = PlanRequest {
        plan_id: "plan-1".to_string(),
        account_root: ROOT.to_string(),
        inbox: ".INBOX".to_string(),
        mover: MoverKind::Imap,
        separator: '.',
        known_folders: folders.iter().map(|f| f.dotpath.clone()).collect(),
        universe_folders: folders.len(),
    };
    build_plan(&request, &choices, &messages, &messages)
}

#[test]
fn plan_builds_folders_actions_and_sieve() {
    let mc = build_mock();
    let plan = plan_for(&mc, None);

    assert_eq!(plan.mover, MoverKind::Imap);
    assert_eq!(plan.separator, '.');

    let folders = &plan.folders_to_create;
    assert_eq!(folders.len(), 1);
    assert_eq!(folders[0].dotpath, ".lists/.elixir");
    assert_eq!(folders[0].imap_name, "lists.elixir");
    assert_eq!(folders[0].sieve_target, "lists.elixir");
    assert!(!folders[0].exists);

    assert_eq!(plan.actions.len(), 4, "one action per list message");
    for a in &plan.actions {
        assert_eq!(a.dst_dotpath, ".lists/.elixir");
        assert_eq!(a.dst_imap, "lists.elixir");
        assert_eq!(a.src_folder, ".INBOX");
        assert!(a.uid.is_some());
    }

    assert!(plan.sieve_text.contains(r#"fileinto "lists.elixir";"#));
    assert!(plan.sieve_text.contains("List-Id"));

    let pc = &plan.precheck;
    assert_eq!(pc.actions, 4);
    assert_eq!(pc.actions_unresolved, 0);
    assert_eq!(pc.total_messages, 5);
    assert_eq!(pc.distinct_message_ids, 5);
    assert_eq!(pc.actions_missing_message_id, 0);
    assert_eq!(pc.universe_folders, 1);
}

#[test]
fn verify_confirms_a_fresh_plan() {
    let mc = build_mock();
    let plan = plan_for(&mc, None);
    let verify = verify_plan(&plan, &mc.inbox(), &Config::default().excluded_folders);
    assert_eq!(verify.actions, 4);
    assert_eq!(verify.resolved, 4);
    assert_eq!(verify.unresolved, 0);
    assert_eq!(verify.actions_into_excluded, 0);
    assert!(verify.ok);
}

#[test]
fn verify_notices_what_changed() {
    let mc = build_mock();
    let mut plan = plan_for(&mc, None);
    let left: Vec<Message> = mc.inbox().into_iter().filter(|m| m.uid != Some(2)).collect();
    let verify = verify_plan(&plan, &left, &Config::default().excluded_folders);
    assert_eq!((verify.resolved, verify.unresolved, verify.ok), (3, 1, false));
    plan.actions[0].dst_dotpath = ".Trash".to_string();
    let verify = verify_plan(&plan, &mc.inbox(), &Config::default().excluded_folders);
    assert_eq!((verify.unresolved, verify.actions_into_excluded, verify.ok), (0, 1, false));
}

#[test]
fn approved_filter_restricts_to_selected_clusters() {
    let mut mc = Cache::new();
    for uid in 1..=4u32 {
        let m = mc.message(".INBOX").uid(uid).from("b@l.com").list_id("elixir.groups.io");
        mc.write(m);
    }
    for uid in 10..=14u32 {
        let m = mc.message(".INBOX").uid(uid).from(&format!("n{uid}@github.com"));
        mc.write(m);
    }

    // Approve only the github (sender-domain) cluster.
    let approved = vec![Approval { key: "github.com".to_string(), dotpath: None }];
    let plan = plan_for(&mc, Some(approved));
    let folders = &plan.folders_to_create;
    assert_eq!(folders.len(), 1);
    assert_eq!(folders[0].dotpath, ".vendors/.github");
    // Only the 5 github messages become actions; the elixir cluster is excluded.
    assert_eq!(plan.actions.len(), 5);

    // A destination of the user's own takes the place of the suggested one.
    let edited = vec![Approval {
        key: "github.com".to_string(),
        dotpath: Some(".dev/.hub".to_string()),
    }];
    let plan = plan_for(&mc, Some(edited));
    assert_eq!(plan.folders_to_create[0].imap_name, "dev.hub");
    assert_eq!(plan.actions[0].dst_dotpath, ".dev/.hub");
}

#[test]
fn dry_run_streams_ndjson_and_moves_nothing() {
    let mc = build_mock();
    let plan = plan_for(&mc, None);
    let mut sink = VecSink::default();
    apply_plan(&plan, &mut DryRunMover, &mut sink, &HashSet::new()).unwrap();

    assert!(matches!(sink.0.first(), Some(JournalRecord::PlanLoaded { .. })));
    assert!(matches!(sink.0.last(), Some(JournalRecord::Done { simulated: 4, moved: 0, .. })));
    let simulated = sink
        .0
        .iter()
        .filter(|r| matches!(r, JournalRecord::ActionMoved { outcome, .. } if outcome == "simulated"))
        .count();
    assert_eq!(simulated, 4, "all four actions simulated");
}

#[test]
fn refuses_real_apply_without_yes() {
    for mover in [MoverKind::Imap, MoverKind::Local] {
        let refused = may_apply(mover, false, false, true).unwrap_err();
        assert!(refused.to_string().contains("--yes"));
        assert!(may_apply(mover, true, false, false).is_ok());
    }
}

#[test]
fn real_apply_requires_imap_host() {
    // With --yes but no server to talk to, a real IMAP apply must refuse rather than
    // guess: it never touches mail without an explicit target.
    let refused = may_apply(MoverKind::Imap, false, true, false).unwrap_err();
    assert!(refused.to_string().contains("--imap-host"));
    assert!(may_apply(MoverKind::Local, false, true, false).is_ok());
    assert!(may_apply(MoverKind::Imap, false, true, true).is_ok());
}

// ---- commands ----

#[test]
fn root_must_be_given_and_exist() {
    assert!(account_root(None, false).unwrap_err().to_string().contains("MAILUTIL_ROOT"));
    assert_eq!(
        account_root(Some("/x"), false).unwrap_err().to_string(),
        "account root is not a directory: /x"
    );
    assert_eq!(account_root(Some("/x"), true).unwrap(), "/x");
}

#[test]
fn scan_summarizes_folders() {
    let mut mc = build_mock();
    mc.folder(".lists/.a");
    let folders = mc.folders();
    assert_eq!(select_folders(folders.clone(), None).len(), 2);
    let one = select_folders(folders.clone(), Some(".INBOX"));
    assert_eq!(one.len(), 1);
    assert!(select_folders(folders.clone(), Some(".nope")).is_empty());
    let summaries = folders
        .iter()
        .map(|f| FolderSummary { dotpath: f.dotpath.clone(), messages: mc.disk.count(f) })
        .collect();
    let out = scan_output(ROOT, summaries);
    assert_eq!((out.folder_count, out.total_messages), (2, 5));
    assert_eq!(out.root, ROOT);
}

#[test]
fn taxonomy_leaves_out_the_inbox_and_excluded_folders() {
    let mut mc = build_mock();
    mc.folder(".lists/.a");
    mc.folder(".Trash");
    let known =
        existing_folders(&mc.folders(), ".INBOX", &Config::default().excluded_folders);
    assert_eq!(known.len(), 1);
    assert_eq!((known[0].dotpath.as_str(), known[0].leaf.as_str()), (".lists/.a", "a"));
}

#[test]
fn excluded_folders_do_not_count() {
    let mut mc = build_mock();
    mc.folder(".lists/.a");
    mc.folder(".Trash");
    let folders = mc.folders();
    let counted = counted_folders(&folders, &Config::default().excluded_folders);
    let names: Vec<&str> = counted.iter().map(|f| f.dotpath.as_str()).collect();
    assert_eq!(names, vec![".INBOX", ".lists/.a"]);
    assert_eq!(counted_folders(&folders, &vec![]).len(), 3);
}

#[test]
fn suggest_counts_what_it_clusters() {
    let mc = build_mock();
    let out = suggest_inbox(ROOT, ".INBOX", &mc.folders(), &mc.inbox(), &cfg(), key);
    assert_eq!((out.inbox_messages, out.clustered_messages), (5, 4));
    let names: Vec<&str> = out.clusters.iter().map(|c: &Cluster| c.key.as_str()).collect();
    assert_eq!(names, vec!["elixir.groups.io"]);
}
