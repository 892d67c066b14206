//! Shared data types. They are free of I/O, so every other module can use them.
//!
//! Each type with text in it has a view: the same record with character sequences in
//! place of strings. Contracts speak of the views.

pub mod laws;

use vstd::prelude::*;
use vstd::string::StrSliceExecFns;

use crate::seqs::all_views;
use crate::text::{after_last, clone_texts, find_last, opt_text, texts, to_chars};

verus! {

// ---- messages ----

/// A message's stable identity plus the header fields the suggestion engine needs.
/// The body is never carried here.
#[derive(Debug, Clone, PartialEq, Eq)]
pub struct Message {
    /// Maildir++ dotpath of the folder the message currently lives in, e.g. ".INBOX".
    pub folder: String,
    /// mbsync native-scheme UID embedded in the filename (`,U=<uid>`), if present.
    pub uid: Option<u32>,
    /// The on-disk filename (within the folder's `cur/` or `new/`).
    pub filename: String,
    /// Whether the file is in `new/` (true) or `cur/` (false).
    pub is_new: bool,
    /// Message-ID with angle brackets stripped, lowercased. `None` if absent.
    pub message_id: Option<String>,
    /// Header fields used for clustering.
    pub headers: MessageHeaders,
}

/// The view of a [`Message`].
#[verifier::ext_equal]
pub ghost struct MessageView {
    pub folder: Seq<char>,
    pub uid: Option<u32>,
    pub filename: Seq<char>,
    pub is_new: bool,
    pub message_id: Option<Seq<char>>,
    pub headers: HeadersView,
}

impl View for Message {
    type V = MessageView;

    open spec fn view(&self) -> MessageView {
        MessageView {
            folder: self.folder@,
            uid: self.uid,
            filename: self.filename@,
            is_new: self.is_new,
            message_id: opt_text(self.message_id),
            headers: self.headers@,
        }
    }
}

/// The subset of headers extracted for clustering. All values are trimmed; addresses
/// are lowercased. Missing headers are `None` / empty.
#[derive(Debug, Clone, PartialEq, Eq)]
pub struct MessageHeaders {
    /// `List-Id`, normalized: angle brackets stripped, lowercased.
    pub list_id: Option<String>,
    /// Bare `From` address (`local@domain`), lowercased.
    pub from_addr: Option<String>,
    /// `From` display name, if any.
    pub from_name: Option<String>,
    /// Recipient addresses from To/Cc/Delivered-To, lowercased, deduplicated.
    pub recipients: Vec<String>,
    /// `Subject`, raw-decoded.
    pub subject: Option<String>,
    /// Whether a `List-Unsubscribe` / `List-Post` header was present (list corroboration).
    pub is_list_mail: bool,
}

/// The view of [`MessageHeaders`].
#[verifier::ext_equal]
pub ghost struct HeadersView {
    pub list_id: Option<Seq<char>>,
    pub from_addr: Option<Seq<char>>,
    pub from_name: Option<Seq<char>>,
    pub recipients: Seq<Seq<char>>,
    pub subject: Option<Seq<char>>,
    pub is_list_mail: bool,
}

impl View for MessageHeaders {
    type V = HeadersView;

    open spec fn view(&self) -> HeadersView {
        HeadersView {
            list_id: opt_text(self.list_id),
            from_addr: opt_text(self.from_addr),
            from_name: opt_text(self.from_name),
            recipients: texts(self.recipients@),
            subject: opt_text(self.subject),
            is_list_mail: self.is_list_mail,
        }
    }
}

impl HeadersView {
    /// No header present.
    pub open spec fn none() -> HeadersView {
        HeadersView {
            list_id: None,
            from_addr: None,
            from_name: None,
            recipients: Seq::empty(),
            subject: None,
            is_list_mail: false,
        }
    }

    /// The sender's domain: everything after the last `@` of the address.
    pub open spec fn from_domain(self) -> Option<Seq<char>> {
        match self.from_addr {
            Some(a) => Some(after_last(a, '@')),
            None => None,
        }
    }
}

impl Default for MessageHeaders {
    fn default() -> (r: MessageHeaders)
        ensures
            r@ == HeadersView::none(),
    {
        let r = MessageHeaders {
            list_id: None,
            from_addr: None,
            from_name: None,
            recipients: Vec::new(),
            subject: None,
            is_list_mail: false,
        };
        assert(r@ =~= HeadersView::none());
        r
    }
}

impl MessageHeaders {
    /// Domain of the sender: everything after the last `@` of the address.
    pub fn from_domain(&self) -> (r: Option<&str>)
        ensures
            r is Some == self@.from_domain() is Some,
            r is Some ==> r->0@ == self@.from_domain()->0,
    {
        match &self.from_addr {
            Some(a) => {
                let addr: &str = a.as_str();
                let chars = to_chars(addr);
                let at = ['@'];
                assert(at@ =~= seq!['@']);
                let n: usize = chars.len();
                let from: usize = match find_last(&chars, &at) {
                    Some(i) => i + 1,
                    None => 0,
                };
                assert(addr@.subrange(from as int, n as int) =~= after_last(addr@, '@'));
                Some(addr.substring_char(from, n))
            },
            None => None,
        }
    }
}

// ---- clusters ----

/// How a cluster maps to a destination folder.
#[derive(Debug, PartialEq, Eq)]
pub enum Destination {
    /// A folder that already exists in the cache (reuse existing taxonomy).
    Existing { dotpath: String },
    /// A new folder to be created, described by its proposed dotpath.
    New { dotpath: String },
}

/// The view of a [`Destination`].
#[verifier::ext_equal]
pub ghost enum DestinationView {
    Existing { dotpath: Seq<char> },
    New { dotpath: Seq<char> },
}

impl View for Destination {
    type V = DestinationView;

    open spec fn view(&self) -> DestinationView {
        match self {
            Destination::Existing { dotpath } => DestinationView::Existing { dotpath: dotpath@ },
            Destination::New { dotpath } => DestinationView::New { dotpath: dotpath@ },
        }
    }
}

impl DestinationView {
    /// The folder's dotpath, whether it exists already or not.
    pub open spec fn path(self) -> Seq<char> {
        match self {
            DestinationView::Existing { dotpath } => dotpath,
            DestinationView::New { dotpath } => dotpath,
        }
    }
}

impl Clone for Destination {
    fn clone(&self) -> (r: Destination)
        ensures
            r@ == self@,
    {
        match self {
            Destination::Existing { dotpath } => Destination::Existing { dotpath: dotpath.clone() },
            Destination::New { dotpath } => Destination::New { dotpath: dotpath.clone() },
        }
    }
}

impl Destination {
    /// The folder's dotpath.
    pub fn dotpath(&self) -> (r: &str)
        ensures
            r@ == self@.path(),
    {
        match self {
            Destination::Existing { dotpath } => dotpath.as_str(),
            Destination::New { dotpath } => dotpath.as_str(),
        }
    }
}

/// The signal that produced a cluster, strongest first.
#[derive(Debug, Clone, Copy, PartialEq, Eq, PartialOrd, Ord, Hash, Structural)]
pub enum Signal {
    ListId,
    SenderDomain,
    PersonAddress,
}

impl Signal {
    /// The position of the signal in the declared order.
    pub open spec fn index(self) -> int {
        match self {
            Signal::ListId => 0,
            Signal::SenderDomain => 1,
            Signal::PersonAddress => 2,
        }
    }

    /// The base weight in tenths.
    pub open spec fn tenths(self) -> u32 {
        match self {
            Signal::ListId => 10,
            Signal::SenderDomain => 6,
            Signal::PersonAddress => 5,
        }
    }

    /// Base weight used in scoring, in tenths; List-Id is the most reliable signal, and
    /// each signal weighs more than those declared after it.
    pub fn strength_tenths(self) -> (r: u32)
        ensures
            r == self.tenths(),
            forall|weaker: Signal| self.index() < weaker.index() ==> r > #[trigger] weaker.tenths(),
    {
        match self {
            Signal::ListId => 10,
            Signal::SenderDomain => 6,
            Signal::PersonAddress => 5,
        }
    }
}

/// How sure the engine is of a cluster.
#[derive(Debug, Clone, Copy, PartialEq, Eq, Structural)]
pub enum Confidence {
    High,
    Medium,
    Low,
}

/// The order key of the score zero. Scores are compared by a key that grows with the
/// score: the bits of a non-negative score with the top bit set.
pub const ZERO_SCORE: u64 = 0x8000_0000_0000_0000;

/// A proposed grouping of inbox messages that should be filed together.
#[derive(Debug, PartialEq, Eq)]
pub struct Cluster {
    /// The matched key (the List-Id value, sender domain, or person address).
    pub key: String,
    pub signal: Signal,
    pub destination: Destination,
    /// Number of inbox messages in this cluster.
    pub count: usize,
    /// The order key of the cluster's score.
    pub score: u64,
    pub confidence: Confidence,
    /// A few representative senders (deduplicated), for the review UI.
    pub sample_senders: Vec<String>,
    /// A few representative subjects, for the review UI.
    pub sample_subjects: Vec<String>,
    /// UIDs of the messages in this cluster (source folder is always the scanned inbox).
    pub uids: Vec<u32>,
}

/// The view of a [`Cluster`].
#[verifier::ext_equal]
pub ghost struct ClusterView {
    pub key: Seq<char>,
    pub signal: Signal,
    pub destination: DestinationView,
    pub count: nat,
    pub score: u64,
    pub confidence: Confidence,
    pub sample_senders: Seq<Seq<char>>,
    pub sample_subjects: Seq<Seq<char>>,
    pub uids: Seq<u32>,
}

impl View for Cluster {
    type V = ClusterView;

    open spec fn view(&self) -> ClusterView {
        ClusterView {
            key: self.key@,
            signal: self.signal,
            destination: self.destination@,
            count: self.count as nat,
            score: self.score,
            confidence: self.confidence,
            sample_senders: texts(self.sample_senders@),
            sample_subjects: texts(self.sample_subjects@),
            uids: self.uids@,
        }
    }
}

impl Clone for Cluster {
    fn clone(&self) -> (r: Cluster)
        ensures
            r@ == self@,
    {
        let mut uids: Vec<u32> = Vec::new();
        for i in 0..self.uids.len()
            invariant
                uids@ == self.uids@.take(i as int),
        {
            uids.push(self.uids[i]);
            assert(self.uids@.take(i + 1) =~= self.uids@.take(i as int).push(
                self.uids@[i as int],
            ));
        }
        assert(self.uids@.take(self.uids@.len() as int) =~= self.uids@);
        Cluster {
            key: self.key.clone(),
            signal: self.signal,
            destination: self.destination.clone(),
            count: self.count,
            score: self.score,
            confidence: self.confidence,
            sample_senders: clone_texts(&self.sample_senders),
            sample_subjects: clone_texts(&self.sample_subjects),
            uids,
        }
    }
}

/// Tunable knobs for the suggestion engine.
#[derive(Debug, Clone, PartialEq, Eq)]
pub struct Config {
    /// Minimum messages for a cluster to be surfaced.
    pub min_count: usize,
    /// Order key of the minimum score for a cluster to be surfaced.
    pub min_score: u64,
    /// Folders excluded from source scanning and from message-conservation math
    /// (deleting mail there is legitimate, so it must not count as "lost").
    pub excluded_folders: Vec<String>,
    /// Domains treated as work mail (routed toward `.work` rather than `.vendors`).
    pub work_domains: Vec<String>,
}

/// The view of a [`Config`].
#[verifier::ext_equal]
pub ghost struct ConfigView {
    pub min_count: nat,
    pub min_score: u64,
    pub excluded_folders: Seq<Seq<char>>,
    pub work_domains: Seq<Seq<char>>,
}

impl View for Config {
    type V = ConfigView;

    open spec fn view(&self) -> ConfigView {
        ConfigView {
            min_count: self.min_count as nat,
            min_score: self.min_score,
            excluded_folders: texts(self.excluded_folders@),
            work_domains: texts(self.work_domains@),
        }
    }
}

impl ConfigView {
    /// The configuration used when nothing else is said: clusters of five or more, any
    /// score, the usual special folders excluded, no work domains.
    pub open spec fn standard() -> ConfigView {
        ConfigView {
            min_count: 5,
            min_score: ZERO_SCORE,
            excluded_folders: seq![
                ".Trash"@,
                ".trash"@,
                ".Junk"@,
                ".junk"@,
                ".Spam"@,
                ".spam"@,
                ".Deleted Messages"@,
                ".Drafts"@,
                ".drafts"@,
            ],
            work_domains: Seq::empty(),
        }
    }
}

impl Default for Config {
    fn default() -> (r: Config)
        ensures
            r@ == ConfigView::standard(),
    {
        let excluded_folders: Vec<String> = vec![
            ".Trash".to_string(),
            ".trash".to_string(),
            ".Junk".to_string(),
            ".junk".to_string(),
            ".Spam".to_string(),
            ".spam".to_string(),
            ".Deleted Messages".to_string(),
            ".Drafts".to_string(),
            ".drafts".to_string(),
        ];
        let r = Config {
            min_count: 5,
            min_score: ZERO_SCORE,
            excluded_folders,
            work_domains: Vec::new(),
        };
        assert(texts(excluded_folders@) =~= ConfigView::standard().excluded_folders);
        assert(r@ =~= ConfigView::standard());
        r
    }
}

// ---- plans ----

/// A destination folder under its three names.
#[derive(Debug, Clone, PartialEq, Eq)]
pub struct FolderSpec {
    /// Local Maildir++ dotpath.
    pub dotpath: String,
    /// IMAP mailbox name.
    pub imap_name: String,
    /// Sieve `fileinto` target.
    pub sieve_target: String,
    /// Whether the folder exists in the cache already.
    pub exists: bool,
}

/// The view of a [`FolderSpec`].
#[verifier::ext_equal]
pub ghost struct FolderSpecView {
    pub dotpath: Seq<char>,
    pub imap_name: Seq<char>,
    pub sieve_target: Seq<char>,
    pub exists: bool,
}

impl View for FolderSpec {
    type V = FolderSpecView;

    open spec fn view(&self) -> FolderSpecView {
        FolderSpecView {
            dotpath: self.dotpath@,
            imap_name: self.imap_name@,
            sieve_target: self.sieve_target@,
            exists: self.exists,
        }
    }
}

/// One message to be moved.
#[derive(Debug, Clone, PartialEq, Eq)]
pub struct MoveAction {
    pub message_id: Option<String>,
    /// Dotpath of the folder the message is in.
    pub src_folder: String,
    pub uid: Option<u32>,
    /// Filename of the message in the source folder.
    pub src_filename: String,
    /// Dotpath of the folder the message goes to.
    pub dst_dotpath: String,
    /// IMAP name of the folder the message goes to.
    pub dst_imap: String,
    /// Key of the cluster that motivates the move.
    pub cluster_key: String,
}

/// The view of a [`MoveAction`].
#[verifier::ext_equal]
pub ghost struct ActionView {
    pub message_id: Option<Seq<char>>,
    pub src_folder: Seq<char>,
    pub uid: Option<u32>,
    pub src_filename: Seq<char>,
    pub dst_dotpath: Seq<char>,
    pub dst_imap: Seq<char>,
    pub cluster_key: Seq<char>,
}

impl View for MoveAction {
    type V = ActionView;

    open spec fn view(&self) -> ActionView {
        ActionView {
            message_id: opt_text(self.message_id),
            src_folder: self.src_folder@,
            uid: self.uid,
            src_filename: self.src_filename@,
            dst_dotpath: self.dst_dotpath@,
            dst_imap: self.dst_imap@,
            cluster_key: self.cluster_key@,
        }
    }
}

/// Which mover a plan is made for.
#[derive(Debug, Clone, Copy, PartialEq, Eq, Structural)]
pub enum MoverKind {
    Imap,
    Local,
}

/// What a rule tests.
#[derive(Debug, Clone, PartialEq, Eq)]
pub enum SieveTest {
    HeaderContains { header: String, value: String },
    AddressDomain { header: String, domain: String },
    AddressIs { header: String, address: String },
}

/// The view of a [`SieveTest`].
#[verifier::ext_equal]
pub ghost enum SieveTestView {
    HeaderContains { header: Seq<char>, value: Seq<char> },
    AddressDomain { header: Seq<char>, domain: Seq<char> },
    AddressIs { header: Seq<char>, address: Seq<char> },
}

impl View for SieveTest {
    type V = SieveTestView;

    open spec fn view(&self) -> SieveTestView {
        match self {
            SieveTest::HeaderContains { header, value } => SieveTestView::HeaderContains {
                header: header@,
                value: value@,
            },
            SieveTest::AddressDomain { header, domain } => SieveTestView::AddressDomain {
                header: header@,
                domain: domain@,
            },
            SieveTest::AddressIs { header, address } => SieveTestView::AddressIs {
                header: header@,
                address: address@,
            },
        }
    }
}

/// One sorting rule.
#[derive(Debug, Clone, PartialEq, Eq)]
pub struct SieveRule {
    pub test: SieveTest,
    /// Mailbox that matching mail is filed into.
    pub fileinto: String,
    /// Whether no further rule applies to matching mail.
    pub stop: bool,
    pub comment: Option<String>,
}

/// The view of a [`SieveRule`].
#[verifier::ext_equal]
pub ghost struct SieveRuleView {
    pub test: SieveTestView,
    pub fileinto: Seq<char>,
    pub stop: bool,
    pub comment: Option<Seq<char>>,
}

impl View for SieveRule {
    type V = SieveRuleView;

    open spec fn view(&self) -> SieveRuleView {
        SieveRuleView {
            test: self.test@,
            fileinto: self.fileinto@,
            stop: self.stop,
            comment: opt_text(self.comment),
        }
    }
}

/// Counts taken when a plan is made, to be compared before it is applied.
#[derive(Debug, Clone, Copy, PartialEq, Eq, Structural)]
pub struct Precheck {
    pub universe_folders: usize,
    pub total_messages: usize,
    pub distinct_message_ids: usize,
    pub actions: usize,
    pub actions_missing_message_id: usize,
    pub actions_unresolved: usize,
}

/// A complete sorting plan.
#[derive(Debug, Clone, PartialEq, Eq)]
pub struct Plan {
    pub plan_id: String,
    pub account_root: String,
    /// Dotpath of the folder that is sorted.
    pub inbox: String,
    pub mover: MoverKind,
    /// IMAP hierarchy separator.
    pub separator: char,
    pub folders_to_create: Vec<FolderSpec>,
    pub actions: Vec<MoveAction>,
    pub sieve_rules: Vec<SieveRule>,
    pub sieve_text: String,
    pub precheck: Precheck,
}

/// The view of a [`Plan`].
#[verifier::ext_equal]
pub ghost struct PlanView {
    pub plan_id: Seq<char>,
    pub account_root: Seq<char>,
    pub inbox: Seq<char>,
    pub mover: MoverKind,
    pub separator: char,
    pub folders: Seq<FolderSpecView>,
    pub actions: Seq<ActionView>,
    pub sieve_rules: Seq<SieveRuleView>,
    pub sieve_text: Seq<char>,
    pub precheck: Precheck,
}

impl View for Plan {
    type V = PlanView;

    open spec fn view(&self) -> PlanView {
        PlanView {
            plan_id: self.plan_id@,
            account_root: self.account_root@,
            inbox: self.inbox@,
            mover: self.mover,
            separator: self.separator,
            folders: all_views(self.folders_to_create@),
            actions: all_views(self.actions@),
            sieve_rules: all_views(self.sieve_rules@),
            sieve_text: self.sieve_text@,
            precheck: self.precheck,
        }
    }
}

} // verus!
