//! Plans: which folders to create, which messages to move where, and the sieve rules that
//! sort such mail from then on. Making and checking a plan is pure; it moves nothing.

pub mod laws;

use vstd::prelude::*;

use crate::error::{told, Error};
use crate::model::{
    ActionView, Cluster, ClusterView, ConfigView, FolderSpec, FolderSpecView, Message, MessageView,
    MoveAction, MoverKind, Plan, PlanView, Precheck, SieveRule, SieveRuleView, Signal,
};
use crate::namemap::{imap_name, NameMap};
use crate::seqs::all_views;
use crate::sieve::{cluster_rule, render_script, rule_for_cluster, script_text};
use crate::suggest::laws::{
    classes_of, held, law_no_message_counts_twice, lemma_held_none, lemma_held_step, lemma_total,
    total_count,
};
use crate::suggest::{class_of, classify, cluster_class, suggests, ExistingView};
use crate::text::{clone_opt, holds_text, opt_text, str_eq, texts};
use crate::textmap::{lemma_ascending_distinct, TextSet};

verus! {

// ---- choices ----

/// A cluster approved for sorting, perhaps with a destination of the user's own.
#[derive(Debug, Clone, PartialEq, Eq)]
pub struct Approval {
    /// Key of the cluster.
    pub key: String,
    /// Dotpath to file into, in place of the suggested one.
    pub dotpath: Option<String>,
}

/// The view of an [`Approval`].
#[verifier::ext_equal]
pub ghost struct ApprovalView {
    pub key: Seq<char>,
    pub dotpath: Option<Seq<char>>,
}

impl View for Approval {
    type V = ApprovalView;

    open spec fn view(&self) -> ApprovalView {
        ApprovalView { key: self.key@, dotpath: opt_text(self.dotpath) }
    }
}

/// A cluster to be sorted, and the folder it is filed into.
pub struct Choice {
    pub cluster: Cluster,
    pub dotpath: String,
}

/// The view of a [`Choice`].
#[verifier::ext_equal]
pub ghost struct ChoiceView {
    pub cluster: ClusterView,
    pub dotpath: Seq<char>,
}

impl View for Choice {
    type V = ChoiceView;

    open spec fn view(&self) -> ChoiceView {
        ChoiceView { cluster: self.cluster@, dotpath: self.dotpath@ }
    }
}

/// The position of the first approval with a key, or the number of approvals where there
/// is none.
pub open spec fn first_approval(approved: Seq<ApprovalView>, key: Seq<char>) -> int
    decreases approved.len(),
{
    if approved.len() == 0 || approved[0].key == key {
        0
    } else {
        1 + first_approval(approved.skip(1), key)
    }
}

/// The folder that a cluster is filed into, if it is to be sorted at all: every cluster is
/// where nothing was approved by name, else those whose key was, into the approved folder
/// if there is one.
pub open spec fn filed_into(
    cluster: ClusterView,
    approved: Option<Seq<ApprovalView>>,
) -> Option<Seq<char>> {
    match approved {
        None => Some(cluster.destination.path()),
        Some(list) => {
            let p = first_approval(list, cluster.key);
            if p < list.len() {
                match list[p].dotpath {
                    Some(dotpath) => Some(dotpath),
                    None => Some(cluster.destination.path()),
                }
            } else {
                None
            }
        },
    }
}

/// The clusters to be sorted, in order.
pub open spec fn chosen(
    clusters: Seq<ClusterView>,
    approved: Option<Seq<ApprovalView>>,
) -> Seq<ChoiceView>
    decreases clusters.len(),
{
    if clusters.len() == 0 {
        Seq::empty()
    } else {
        let some = chosen(clusters.drop_last(), approved);
        match filed_into(clusters.last(), approved) {
            Some(dotpath) => some.push(ChoiceView { cluster: clusters.last(), dotpath }),
            None => some,
        }
    }
}

/// The approvals as views.
pub open spec fn approvals(approved: Option<Vec<Approval>>) -> Option<Seq<ApprovalView>> {
    match approved {
        Some(list) => Some(all_views(list@)),
        None => None,
    }
}

/// The folder that a cluster is filed into, if it is to be sorted.
fn file_into(cluster: &Cluster, approved: &Option<Vec<Approval>>) -> (r: Option<String>)
    ensures
        opt_text(r) == filed_into(cluster@, approvals(*approved)),
{
    let list = match approved {
        Some(list) => list,
        None => {
            return Some(cluster.destination.dotpath().to_string());
        },
    };
    let ghost all = all_views(list@);
    let mut p: usize = 0;
    assert(all.skip(0) =~= all);
    while p < list.len()
        invariant
            p <= list@.len(),
            all == all_views(list@),
            approvals(*approved) == Some(all),
            first_approval(all, cluster@.key) == p + first_approval(
                all.skip(p as int),
                cluster@.key,
            ),
        decreases list@.len() - p,
    {
        assert(all.skip(p as int)[0] == list@[p as int]@);
        assert(all.skip(p as int).skip(1) =~= all.skip(p + 1));
        if str_eq(&list[p].key, &cluster.key) {
            return match &list[p].dotpath {
                Some(dotpath) => Some(dotpath.clone()),
                None => Some(cluster.destination.dotpath().to_string()),
            };
        }
        p += 1;
    }
    None
}

/// The clusters to be sorted, each with the folder it is filed into.
pub fn choose_clusters(
    clusters: &[Cluster],
    approved: &Option<Vec<Approval>>,
) -> (r: Vec<Choice>)
    ensures
        all_views(r@) == chosen(all_views(clusters@), approvals(*approved)),
{
    let ghost all = all_views(clusters@);
    let mut r: Vec<Choice> = Vec::new();
    assert(all_views(r@) =~= chosen(all.take(0), approvals(*approved)));
    for i in 0..clusters.len()
        invariant
            all == all_views(clusters@),
            all_views(r@) == chosen(all.take(i as int), approvals(*approved)),
    {
        let ghost was = all_views(r@);
        assert(all.take(i + 1).drop_last() =~= all.take(i as int));
        if let Some(dotpath) = file_into(&clusters[i], approved) {
            let choice = Choice { cluster: clusters[i].clone(), dotpath };
            let ghost added = choice@;
            r.push(choice);
            assert(all_views(r@) =~= was.push(added));
        }
    }
    assert(all.take(clusters@.len() as int) =~= all);
    r
}

// ---- folders ----

/// A folder to be created, under its three names.
pub open spec fn new_folder(dotpath: Seq<char>, sep: char) -> FolderSpecView {
    FolderSpecView {
        dotpath,
        imap_name: imap_name(dotpath, sep),
        sieve_target: imap_name(dotpath, sep),
        exists: false,
    }
}

/// The folders to be created, each once, in the order in which they are first needed:
/// those that are filed into and not known.
pub open spec fn needed(choices: Seq<ChoiceView>, known: Seq<Seq<char>>) -> Seq<Seq<char>>
    decreases choices.len(),
{
    if choices.len() == 0 {
        Seq::empty()
    } else {
        let some = needed(choices.drop_last(), known);
        let dotpath = choices.last().dotpath;
        if known.contains(dotpath) || some.contains(dotpath) {
            some
        } else {
            some.push(dotpath)
        }
    }
}

/// The folders to be created.
pub open spec fn new_folders(dotpaths: Seq<Seq<char>>, sep: char) -> Seq<FolderSpecView> {
    Seq::new(dotpaths.len(), |i: int| new_folder(dotpaths[i], sep))
}

/// The folders to be created: those that are filed into and not known.
fn plan_folders(choices: &Vec<Choice>, known: &Vec<String>, names: &NameMap) -> (r: Vec<
    FolderSpec,
>)
    ensures
        all_views(r@) == new_folders(needed(all_views(choices@), texts(known@)), names.sep()),
{
    let ghost all = all_views(choices@);
    let mut dotpaths: Vec<String> = Vec::new();
    let mut r: Vec<FolderSpec> = Vec::new();
    assert(texts(dotpaths@) =~= needed(all.take(0), texts(known@)));
    assert(all_views(r@) =~= new_folders(texts(dotpaths@), names.sep()));
    for i in 0..choices.len()
        invariant
            all == all_views(choices@),
            texts(dotpaths@) == needed(all.take(i as int), texts(known@)),
            all_views(r@) == new_folders(texts(dotpaths@), names.sep()),
    {
        assert(all.take(i + 1).drop_last() =~= all.take(i as int));
        assert(all[i as int] == choices@[i as int]@);
        let dotpath = &choices[i].dotpath;
        if !holds_text(known, dotpath) && !holds_text(&dotpaths, dotpath) {
            let ghost was = texts(dotpaths@);
            let folder = FolderSpec {
                dotpath: dotpath.clone(),
                imap_name: names.dotpath_to_imap(dotpath),
                sieve_target: names.dotpath_to_sieve(dotpath),
                exists: false,
            };
            let ghost added = folder@;
            let ghost made = all_views(r@);
            r.push(folder);
            dotpaths.push(dotpath.clone());
            proof {
                assert(texts(dotpaths@) =~= was.push(dotpath@));
                assert(all_views(r@) =~= made.push(added));
                assert(new_folders(was.push(dotpath@), names.sep()) =~= made.push(added));
            }
        }
    }
    assert(all.take(choices@.len() as int) =~= all);
    r
}

// ---- actions ----

/// The position of the first choice for a class, or the number of choices where there is
/// none.
pub open spec fn choice_for(choices: Seq<ChoiceView>, class: (Signal, Seq<char>)) -> int
    decreases choices.len(),
{
    if choices.len() == 0 || cluster_class(choices[0].cluster) == class {
        0
    } else {
        1 + choice_for(choices.skip(1), class)
    }
}

/// The move of a message into a folder on account of a cluster.
pub open spec fn action_for(
    m: MessageView,
    inbox: Seq<char>,
    choice: ChoiceView,
    sep: char,
) -> ActionView {
    ActionView {
        message_id: m.message_id,
        src_folder: inbox,
        uid: m.uid,
        src_filename: m.filename,
        dst_dotpath: choice.dotpath,
        dst_imap: imap_name(choice.dotpath, sep),
        cluster_key: choice.cluster.key,
    }
}

/// The move of a message, if its class was chosen.
pub open spec fn move_of(
    m: MessageView,
    inbox: Seq<char>,
    choices: Seq<ChoiceView>,
    sep: char,
) -> Option<ActionView> {
    match class_of(m) {
        Some(class) => {
            let p = choice_for(choices, class);
            if p < choices.len() {
                Some(action_for(m, inbox, choices[p], sep))
            } else {
                None
            }
        },
        None => None,
    }
}

/// The moves of all messages whose class was chosen, in the order of the messages.
pub open spec fn moves(
    messages: Seq<MessageView>,
    inbox: Seq<char>,
    choices: Seq<ChoiceView>,
    sep: char,
) -> Seq<ActionView>
    decreases messages.len(),
{
    if messages.len() == 0 {
        Seq::empty()
    } else {
        let some = moves(messages.drop_last(), inbox, choices, sep);
        match move_of(messages.last(), inbox, choices, sep) {
            Some(action) => some.push(action),
            None => some,
        }
    }
}

/// The move of a message, if its class was chosen.
fn plan_move(m: &Message, inbox: &str, choices: &Vec<Choice>, names: &NameMap) -> (r: Option<
    MoveAction,
>)
    ensures
        match r {
            Some(action) => move_of(m@, inbox@, all_views(choices@), names.sep()) == Some(action@),
            None => move_of(m@, inbox@, all_views(choices@), names.sep()) is None,
        },
{
    let (signal, key) = match classify(m) {
        Some(class) => class,
        None => {
            return None;
        },
    };
    let ghost all = all_views(choices@);
    let ghost class = (signal, key@);
    let mut p: usize = 0;
    assert(all.skip(0) =~= all);
    while p < choices.len()
        invariant
            p <= choices@.len(),
            all == all_views(choices@),
            class == (signal, key@),
            class_of(m@) == Some(class),
            choice_for(all, class) == p + choice_for(all.skip(p as int), class),
        decreases choices@.len() - p,
    {
        assert(all.skip(p as int)[0] == choices@[p as int]@);
        assert(all.skip(p as int).skip(1) =~= all.skip(p + 1));
        let cluster = &choices[p].cluster;
        if cluster.signal == signal && str_eq(&cluster.key, &key) {
            return Some(
                MoveAction {
                    message_id: clone_opt(&m.message_id),
                    src_folder: inbox.to_string(),
                    uid: m.uid,
                    src_filename: m.filename.clone(),
                    dst_dotpath: choices[p].dotpath.clone(),
                    dst_imap: names.dotpath_to_imap(&choices[p].dotpath),
                    cluster_key: cluster.key.clone(),
                },
            );
        }
        p += 1;
    }
    None
}

/// The moves of all messages whose class was chosen.
fn plan_moves(
    messages: &[Message],
    inbox: &str,
    choices: &Vec<Choice>,
    names: &NameMap,
) -> (r: Vec<MoveAction>)
    ensures
        all_views(r@) == moves(all_views(messages@), inbox@, all_views(choices@), names.sep()),
{
    let ghost all = all_views(messages@);
    let ghost list = all_views(choices@);
    let mut r: Vec<MoveAction> = Vec::new();
    assert(all_views(r@) =~= moves(all.take(0), inbox@, list, names.sep()));
    for i in 0..messages.len()
        invariant
            all == all_views(messages@),
            list == all_views(choices@),
            all_views(r@) == moves(all.take(i as int), inbox@, list, names.sep()),
    {
        let ghost was = all_views(r@);
        assert(all.take(i + 1).drop_last() =~= all.take(i as int));
        assert(all[i as int] == messages@[i as int]@);
        if let Some(action) = plan_move(&messages[i], inbox, choices, names) {
            let ghost added = action@;
            r.push(action);
            assert(all_views(r@) =~= was.push(added));
        }
    }
    assert(all.take(messages@.len() as int) =~= all);
    r
}

// ---- rules ----

/// The rules for the choices, in order.
pub open spec fn rules(choices: Seq<ChoiceView>, sep: char) -> Seq<SieveRuleView> {
    Seq::new(
        choices.len(),
        |i: int| cluster_rule(choices[i].cluster, imap_name(choices[i].dotpath, sep)),
    )
}

/// The rules for the choices.
fn plan_rules(choices: &Vec<Choice>, names: &NameMap) -> (r: Vec<SieveRule>)
    ensures
        all_views(r@) == rules(all_views(choices@), names.sep()),
{
    let mut r: Vec<SieveRule> = Vec::new();
    for i in 0..choices.len()
        invariant
            r@.len() == i,
            forall|j: int|
                0 <= j < i ==> (#[trigger] r@[j])@ == rules(all_views(choices@), names.sep())[j],
    {
        let target = names.dotpath_to_sieve(&choices[i].dotpath);
        r.push(rule_for_cluster(&choices[i].cluster, &target));
    }
    assert(all_views(r@) =~= rules(all_views(choices@), names.sep()));
    r
}

// ---- checks ----

/// An action refers to a message: it is in the source folder, and has the Message-ID of
/// the action where both have one, else its UID.
pub open spec fn refers(action: ActionView, m: MessageView) -> bool {
    m.folder == action.src_folder && match (m.message_id, action.message_id) {
        (Some(a), Some(b)) => a == b,
        _ => m.uid is Some && m.uid == action.uid,
    }
}

/// An action refers to one of the messages.
pub open spec fn resolves(action: ActionView, messages: Seq<MessageView>) -> bool {
    exists|i: int| 0 <= i < messages.len() && refers(action, #[trigger] messages[i])
}

/// How many actions refer to none of the messages.
pub open spec fn unresolved(actions: Seq<ActionView>, messages: Seq<MessageView>) -> nat
    decreases actions.len(),
{
    if actions.len() == 0 {
        0
    } else {
        unresolved(actions.drop_last(), messages) + if resolves(actions.last(), messages) {
            0nat
        } else {
            1
        }
    }
}

/// How many actions have no Message-ID.
pub open spec fn unidentified(actions: Seq<ActionView>) -> nat
    decreases actions.len(),
{
    if actions.len() == 0 {
        0
    } else {
        unidentified(actions.drop_last()) + if actions.last().message_id is None {
            1nat
        } else {
            0
        }
    }
}

/// How many actions file into one of the folders.
pub open spec fn filing_into(actions: Seq<ActionView>, folders: Seq<Seq<char>>) -> nat
    decreases actions.len(),
{
    if actions.len() == 0 {
        0
    } else {
        filing_into(actions.drop_last(), folders) + if folders.contains(
            actions.last().dst_dotpath,
        ) {
            1nat
        } else {
            0
        }
    }
}

/// The Message-IDs that occur among messages.
pub open spec fn ids_among(messages: Seq<MessageView>) -> Set<Seq<char>>
    decreases messages.len(),
{
    if messages.len() == 0 {
        Set::empty()
    } else {
        let some = ids_among(messages.drop_last());
        match messages.last().message_id {
            Some(id) => some.insert(id),
            None => some,
        }
    }
}

/// Whether an action refers to one of the messages.
fn find_message(action: &MoveAction, messages: &[Message]) -> (r: bool)
    ensures
        r == resolves(action@, all_views(messages@)),
{
    let ghost all = all_views(messages@);
    for i in 0..messages.len()
        invariant
            all == all_views(messages@),
            forall|j: int| 0 <= j < i ==> !refers(action@, #[trigger] all[j]),
    {
        let m = &messages[i];
        assert(all[i as int] == m@);
        let same = match (&m.message_id, &action.message_id) {
            (Some(a), Some(b)) => str_eq(a, b),
            _ => match (m.uid, action.uid) {
                (Some(a), Some(b)) => a == b,
                _ => false,
            },
        };
        if same && str_eq(&m.folder, &action.src_folder) {
            assert(refers(action@, all[i as int]));
            return true;
        }
    }
    false
}

/// How many actions refer to none of the messages.
fn count_unresolved(actions: &Vec<MoveAction>, messages: &[Message]) -> (r: usize)
    ensures
        r == unresolved(all_views(actions@), all_views(messages@)),
        r <= actions@.len(),
{
    let ghost all = all_views(actions@);
    let mut n: usize = 0;
    for i in 0..actions.len()
        invariant
            all == all_views(actions@),
            n <= i,
            n == unresolved(all.take(i as int), all_views(messages@)),
    {
        assert(all.take(i + 1).drop_last() =~= all.take(i as int));
        assert(all[i as int] == actions@[i as int]@);
        if !find_message(&actions[i], messages) {
            n += 1;
        }
    }
    assert(all.take(actions@.len() as int) =~= all);
    n
}

/// How many actions have no Message-ID.
fn count_unidentified(actions: &Vec<MoveAction>) -> (r: usize)
    ensures
        r == unidentified(all_views(actions@)),
{
    let ghost all = all_views(actions@);
    let mut n: usize = 0;
    for i in 0..actions.len()
        invariant
            all == all_views(actions@),
            n <= i,
            n == unidentified(all.take(i as int)),
    {
        assert(all.take(i + 1).drop_last() =~= all.take(i as int));
        assert(all[i as int] == actions@[i as int]@);
        if actions[i].message_id.is_none() {
            n += 1;
        }
    }
    assert(all.take(actions@.len() as int) =~= all);
    n
}

/// How many actions file into one of the folders.
fn count_filing_into(actions: &Vec<MoveAction>, folders: &Vec<String>) -> (r: usize)
    ensures
        r == filing_into(all_views(actions@), texts(folders@)),
{
    let ghost all = all_views(actions@);
    let mut n: usize = 0;
    for i in 0..actions.len()
        invariant
            all == all_views(actions@),
            n <= i,
            n == filing_into(all.take(i as int), texts(folders@)),
    {
        assert(all.take(i + 1).drop_last() =~= all.take(i as int));
        assert(all[i as int] == actions@[i as int]@);
        if holds_text(folders, &actions[i].dst_dotpath) {
            n += 1;
        }
    }
    assert(all.take(actions@.len() as int) =~= all);
    n
}

/// How many different Message-IDs occur among the messages.
fn count_ids(messages: &[Message]) -> (r: usize)
    ensures
        r == ids_among(all_views(messages@)).len(),
{
    let ghost all = all_views(messages@);
    let mut ids = TextSet::new();
    assert(all.take(0) =~= Seq::empty());
    for i in 0..messages.len()
        invariant
            all == all_views(messages@),
            ids@ == ids_among(all.take(i as int)),
    {
        assert(all.take(i + 1).drop_last() =~= all.take(i as int));
        assert(all[i as int] == messages@[i as int]@);
        if let Some(id) = &messages[i].message_id {
            ids.insert(id.clone());
        }
    }
    assert(all.take(messages@.len() as int) =~= all);
    let n: usize = ids.len();
    proof {
        lemma_ascending_distinct(ids.items());
        ids.items().unique_seq_to_set();
    }
    n
}

/// The counts taken of a plan and of the messages in all folders that count.
pub open spec fn precheck_of(
    actions: Seq<ActionView>,
    folders: nat,
    universe: Seq<MessageView>,
    check: Precheck,
) -> bool {
    &&& check.universe_folders == folders
    &&& check.total_messages == universe.len()
    &&& check.distinct_message_ids == ids_among(universe).len()
    &&& check.actions == actions.len()
    &&& check.actions_missing_message_id == unidentified(actions)
    &&& check.actions_unresolved == unresolved(actions, universe)
}

// ---- plans ----

/// What a plan is made from besides the choices and the messages.
#[derive(Debug, Clone, PartialEq, Eq)]
pub struct PlanRequest {
    pub plan_id: String,
    pub account_root: String,
    /// Dotpath of the folder that is sorted.
    pub inbox: String,
    pub mover: MoverKind,
    /// IMAP hierarchy separator.
    pub separator: char,
    /// Dotpaths of the folders that exist.
    pub known_folders: Vec<String>,
    /// Number of folders that the universe is taken from.
    pub universe_folders: usize,
}

/// `plan` is the plan for the choices: it creates each folder that is missing, moves each
/// inbox message whose class was chosen, and has one rule for each choice.
pub open spec fn is_plan(
    plan: PlanView,
    request: PlanRequest,
    choices: Seq<ChoiceView>,
    messages: Seq<MessageView>,
    universe: Seq<MessageView>,
) -> bool {
    let sep = request.separator;
    &&& plan.plan_id == request.plan_id@
    &&& plan.account_root == request.account_root@
    &&& plan.inbox == request.inbox@
    &&& plan.mover == request.mover
    &&& plan.separator == sep
    &&& plan.folders == new_folders(needed(choices, texts(request.known_folders@)), sep)
    &&& plan.actions == moves(messages, request.inbox@, choices, sep)
    &&& plan.sieve_rules == rules(choices, sep)
    &&& plan.sieve_text == script_text(rules(choices, sep))
    &&& precheck_of(plan.actions, request.universe_folders as nat, universe, plan.precheck)
}

/// Make the plan for the chosen clusters. `messages` are those of the inbox, `universe`
/// those of every folder that counts.
pub fn build_plan(
    request: &PlanRequest,
    choices: &Vec<Choice>,
    messages: &[Message],
    universe: &[Message],
) -> (r: Plan)
    ensures
        is_plan(
            r@,
            *request,
            all_views(choices@),
            all_views(messages@),
            all_views(universe@),
        ),
{
    let names = NameMap::new(request.separator);
    let folders_to_create = plan_folders(choices, &request.known_folders, &names);
    let actions = plan_moves(messages, &request.inbox, choices, &names);
    let sieve_rules = plan_rules(choices, &names);
    let sieve_text = render_script(&sieve_rules);
    let precheck = Precheck {
        universe_folders: request.universe_folders,
        total_messages: universe.len(),
        distinct_message_ids: count_ids(universe),
        actions: actions.len(),
        actions_missing_message_id: count_unidentified(&actions),
        actions_unresolved: count_unresolved(&actions, universe),
    };
    Plan {
        plan_id: request.plan_id.clone(),
        account_root: request.account_root.clone(),
        inbox: request.inbox.clone(),
        mover: request.mover,
        separator: request.separator,
        folders_to_create,
        actions,
        sieve_rules,
        sieve_text,
        precheck,
    }
}

/// What a check of a plan against the current cache finds.
#[derive(Debug, Clone, Copy, PartialEq, Eq, Structural)]
pub struct VerifyReport {
    pub actions: usize,
    pub resolved: usize,
    pub unresolved: usize,
    /// Actions that file into an excluded folder.
    pub actions_into_excluded: usize,
    pub ok: bool,
}

/// Check a plan against the messages of the current cache: every action must refer to one
/// of them, and none may file into an excluded folder.
pub fn verify_plan(plan: &Plan, messages: &[Message], excluded: &Vec<String>) -> (r: VerifyReport)
    ensures
        r.actions == plan@.actions.len(),
        r.unresolved == unresolved(plan@.actions, all_views(messages@)),
        r.resolved + r.unresolved == r.actions,
        r.actions_into_excluded == filing_into(plan@.actions, texts(excluded@)),
        r.ok == (r.unresolved == 0 && r.actions_into_excluded == 0),
{
    let actions: usize = plan.actions.len();
    let unresolved: usize = count_unresolved(&plan.actions, messages);
    let actions_into_excluded: usize = count_filing_into(&plan.actions, excluded);
    VerifyReport {
        actions,
        resolved: actions - unresolved,
        unresolved,
        actions_into_excluded,
        ok: unresolved == 0 && actions_into_excluded == 0,
    }
}

/// What a run of a plan needs to be told before it may touch mail.
pub open spec fn refusal(
    mover: MoverKind,
    dry_run: bool,
    confirmed: bool,
    has_host: bool,
) -> Option<Seq<char>> {
    if dry_run {
        None
    } else if !confirmed {
        Some("refusing to move mail without --yes (use --dry-run to simulate)"@)
    } else if mover == MoverKind::Imap && !has_host {
        Some("a server-side apply needs --imap-host"@)
    } else {
        None
    }
}

/// Whether a plan may be applied: a dry run always may; a real run must be confirmed, and
/// a server-side one must have a server to talk to.
pub fn may_apply(
    mover: MoverKind,
    dry_run: bool,
    confirmed: bool,
    has_host: bool,
) -> (r: Result<(), Error>)
    ensures
        told(r) == match refusal(mover, dry_run, confirmed, has_host) {
            Some(why) => Err::<(), Seq<char>>(why),
            None => Ok::<(), Seq<char>>(()),
        },
{
    if dry_run {
        return Ok(());
    }
    if !confirmed {
        return Err(
            Error::new(
                "refusing to move mail without --yes (use --dry-run to simulate)".to_string(),
            ),
        );
    }
    if mover == MoverKind::Imap && !has_host {
        return Err(Error::new("a server-side apply needs --imap-host".to_string()));
    }
    Ok(())
}

// ---- laws ----

/// A message resolves its own move if it is in the inbox and has a Message-ID or a UID.
proof fn lemma_own_move(
    messages: Seq<MessageView>,
    inbox: Seq<char>,
    choices: Seq<ChoiceView>,
    sep: char,
    universe: Seq<MessageView>,
)
    requires
        forall|i: int|
            0 <= i < messages.len() ==> {
                &&& (#[trigger] messages[i]).folder == inbox
                &&& messages[i].message_id is Some || messages[i].uid is Some
                &&& universe.contains(messages[i])
            },
    ensures
        unresolved(moves(messages, inbox, choices, sep), universe) == 0,
    decreases messages.len(),
{
    if messages.len() > 0 {
        let rest = messages.drop_last();
        assert forall|i: int| 0 <= i < rest.len() implies {
            &&& (#[trigger] rest[i]).folder == inbox
            &&& rest[i].message_id is Some || rest[i].uid is Some
            &&& universe.contains(rest[i])
        } by {
            assert(rest[i] == messages[i]);
        }
        lemma_own_move(rest, inbox, choices, sep, universe);
        let m = messages.last();
        assert(m == messages[messages.len() - 1]);
        let some = moves(rest, inbox, choices, sep);
        match move_of(m, inbox, choices, sep) {
            Some(action) => {
                assert(some.push(action).drop_last() =~= some);
                let k = universe.index_of(m);
                assert(universe[k] == m);
                assert(refers(action, universe[k]));
            },
            None => {},
        }
    }
}

/// A fresh plan checks out: if the messages of the inbox are among those of the cache, and
/// each has a Message-ID or a UID, then every action refers to one of them.
pub proof fn law_fresh_plan_resolves(
    plan: PlanView,
    request: PlanRequest,
    choices: Seq<ChoiceView>,
    messages: Seq<MessageView>,
    universe: Seq<MessageView>,
)
    requires
        is_plan(plan, request, choices, messages, universe),
        forall|i: int|
            0 <= i < messages.len() ==> {
                &&& (#[trigger] messages[i]).folder == request.inbox@
                &&& messages[i].message_id is Some || messages[i].uid is Some
                &&& universe.contains(messages[i])
            },
    ensures
        plan.precheck.actions_unresolved == 0,
        unresolved(plan.actions, universe) == 0,
{
    lemma_own_move(messages, request.inbox@, choices, request.separator, universe);
}

/// `choice_for` finds a choice of the class if there is one.
proof fn lemma_choice_for(choices: Seq<ChoiceView>, class: (Signal, Seq<char>))
    ensures
        0 <= choice_for(choices, class) <= choices.len(),
        choice_for(choices, class) < choices.len() <==> exists|i: int|
            0 <= i < choices.len() && cluster_class((#[trigger] choices[i]).cluster) == class,
    decreases choices.len(),
{
    if choices.len() > 0 && cluster_class(choices[0].cluster) != class {
        let rest = choices.skip(1);
        lemma_choice_for(rest, class);
        if exists|i: int|
            0 <= i < choices.len() && cluster_class((#[trigger] choices[i]).cluster) == class {
            let i = choose|i: int|
                0 <= i < choices.len() && cluster_class((#[trigger] choices[i]).cluster) == class;
            assert(rest[i - 1] == choices[i]);
        }
        if exists|i: int|
            0 <= i < rest.len() && cluster_class((#[trigger] rest[i]).cluster) == class {
            let i = choose|i: int|
                0 <= i < rest.len() && cluster_class((#[trigger] rest[i]).cluster) == class;
            assert(choices[i + 1] == rest[i]);
        }
    }
}

/// There are as many moves as the chosen classes hold messages.
proof fn lemma_moves_held(
    messages: Seq<MessageView>,
    inbox: Seq<char>,
    choices: Seq<ChoiceView>,
    sep: char,
    clusters: Seq<ClusterView>,
)
    requires
        choices.len() == clusters.len(),
        forall|i: int| 0 <= i < choices.len() ==> (#[trigger] choices[i]).cluster == clusters[i],
        classes_of(clusters).no_duplicates(),
    ensures
        moves(messages, inbox, choices, sep).len() == held(messages, classes_of(clusters)),
    decreases messages.len(),
{
    let classes = classes_of(clusters);
    if messages.len() == 0 {
        lemma_held_none(messages, classes);
    } else {
        lemma_moves_held(messages.drop_last(), inbox, choices, sep, clusters);
        lemma_held_step(messages, classes);
        match class_of(messages.last()) {
            Some(class) => {
                lemma_choice_for(choices, class);
                if classes.contains(class) {
                    let k = classes.index_of(class);
                    assert(classes[k] == class);
                    assert(cluster_class(choices[k].cluster) == class);
                }
                if choice_for(choices, class) < choices.len() {
                    let k = choose|k: int|
                        0 <= k < choices.len() && cluster_class((#[trigger] choices[k]).cluster)
                            == class;
                    assert(classes[k] == class);
                }
            },
            None => {},
        }
    }
}

/// Without approvals every cluster is chosen, into its suggested folder.
proof fn lemma_all_chosen(clusters: Seq<ClusterView>)
    ensures
        chosen(clusters, None).len() == clusters.len(),
        forall|i: int|
            0 <= i < clusters.len() ==> (#[trigger] chosen(clusters, None)[i]) == (ChoiceView {
                cluster: clusters[i],
                dotpath: clusters[i].destination.path(),
            }),
    decreases clusters.len(),
{
    if clusters.len() > 0 {
        let rest = clusters.drop_last();
        lemma_all_chosen(rest);
        assert forall|i: int| 0 <= i < clusters.len() implies (
        #[trigger] chosen(clusters, None)[i]) == (ChoiceView {
            cluster: clusters[i],
            dotpath: clusters[i].destination.path(),
        }) by {
            if i < rest.len() {
                assert(chosen(clusters, None)[i] == chosen(rest, None)[i]);
                assert(rest[i] == clusters[i]);
            }
        }
    }
}

/// A plan for all suggestions moves exactly the messages that were clustered: it has one
/// action for each of them.
pub proof fn law_plan_moves_the_clustered<F: Fn(usize, Signal, bool) -> u64>(
    clusters: Seq<ClusterView>,
    messages: Seq<MessageView>,
    existing: Seq<ExistingView>,
    config: ConfigView,
    score: F,
    inbox: Seq<char>,
    sep: char,
)
    requires
        suggests(clusters, messages, existing, config, score),
    ensures
        moves(messages, inbox, chosen(clusters, None), sep).len() == total_count(clusters),
{
    law_no_message_counts_twice(clusters, messages, existing, config, score);
    lemma_total(clusters, messages);
    lemma_all_chosen(clusters);
    let classes = classes_of(clusters);
    assert(classes.no_duplicates()) by {
        assert forall|i: int, j: int|
            0 <= i < classes.len() && 0 <= j < classes.len() && i != j implies classes[i]
            != classes[j] by {
            if i < j {
                assert(cluster_class(clusters[i]) != cluster_class(clusters[j]));
            } else {
                assert(cluster_class(clusters[j]) != cluster_class(clusters[i]));
            }
        }
    }
    lemma_moves_held(messages, inbox, chosen(clusters, None), sep, clusters);
}

/// No folder is created twice, and none that is known.
pub proof fn law_folders_needed(choices: Seq<ChoiceView>, known: Seq<Seq<char>>)
    ensures
        needed(choices, known).no_duplicates(),
        forall|i: int|
            0 <= i < needed(choices, known).len() ==> !known.contains(
                #[trigger] needed(choices, known)[i],
            ),
        forall|i: int|
            0 <= i < choices.len() ==> known.contains((#[trigger] choices[i]).dotpath) || needed(
                choices,
                known,
            ).contains(choices[i].dotpath),
    decreases choices.len(),
{
    if choices.len() > 0 {
        let rest = choices.drop_last();
        law_folders_needed(rest, known);
        let some = needed(rest, known);
        let all = needed(choices, known);
        let last = choices.last().dotpath;
        assert forall|i: int| 0 <= i < choices.len() implies known.contains(
            (#[trigger] choices[i]).dotpath,
        ) || all.contains(choices[i].dotpath) by {
            if i < rest.len() {
                assert(rest[i] == choices[i]);
                if some.contains(choices[i].dotpath) {
                    let k = some.index_of(choices[i].dotpath);
                    assert(all[k] == choices[i].dotpath);
                }
            } else if !known.contains(last) && !some.contains(last) {
                assert(all[some.len() as int] == last);
            }
        }
        if !known.contains(last) && !some.contains(last) {
            assert forall|i: int, j: int|
                0 <= i < all.len() && 0 <= j < all.len() && i != j implies all[i] != all[j] by {
                if i < some.len() {
                    assert(some.contains(some[i]));
                }
                if j < some.len() {
                    assert(some.contains(some[j]));
                }
            }
        }
    }
}

} // verus!
