//! What a plan is for: each message of a chosen class goes into the folder chosen for that
//! class and no other, that folder is there when it is needed, and a rule sends such mail
//! the same way from then on.

use vstd::prelude::*;

use crate::model::{
    ActionView, ClusterView, DestinationView, MessageView, MoverKind, PlanView, SieveTestView,
    Signal,
};
use crate::namemap::imap_name;
use crate::number::decimal;
use crate::plan::{
    choice_for, chosen, filing_into, first_approval, ids_among, is_plan, move_of, moves, needed,
    refusal, resolves, unidentified, unresolved, ApprovalView, ChoiceView, PlanRequest,
};
use crate::suggest::class_of;
use crate::text::texts;

verus! {

// ---- moves ----

/// Choice `p` is the first for the class of a message: its cluster has the signal and the
/// key of the message.
pub open spec fn suits(choices: Seq<ChoiceView>, m: MessageView, p: int) -> bool {
    &&& 0 <= p < choices.len()
    &&& class_of(m) == Some((choices[p].cluster.signal, choices[p].cluster.key))
    &&& forall|q: int|
        0 <= q < p ==> class_of(m) != Some(
            ((#[trigger] choices[q]).cluster.signal, choices[q].cluster.key),
        )
}

/// The action takes the message out of the inbox and into the folder of the choice.
pub open spec fn files(
    action: ActionView,
    m: MessageView,
    inbox: Seq<char>,
    choice: ChoiceView,
    sep: char,
) -> bool {
    &&& action.message_id == m.message_id
    &&& action.uid == m.uid
    &&& action.src_filename == m.filename
    &&& action.src_folder == inbox
    &&& action.dst_dotpath == choice.dotpath
    &&& action.dst_imap == imap_name(choice.dotpath, sep)
    &&& action.cluster_key == choice.cluster.key
}

/// The action takes the message into the folder chosen for its class.
pub open spec fn files_as_chosen(
    action: ActionView,
    m: MessageView,
    inbox: Seq<char>,
    choices: Seq<ChoiceView>,
    sep: char,
) -> bool {
    exists|p: int| #[trigger]
        suits(choices, m, p) && files(action, m, inbox, choices[p], sep)
}

/// The actions are the moves of the messages at the positions `from`, in order, each into
/// the folder chosen for the message's own class; no class of any other message was chosen.
pub open spec fn moves_from(
    actions: Seq<ActionView>,
    messages: Seq<MessageView>,
    inbox: Seq<char>,
    choices: Seq<ChoiceView>,
    sep: char,
    from: Seq<int>,
) -> bool {
    &&& from.len() == actions.len()
    &&& forall|i: int, j: int| 0 <= i < j < from.len() ==> #[trigger] from[i] < #[trigger] from[j]
    &&& forall|i: int| 0 <= i < from.len() ==> 0 <= #[trigger] from[i] < messages.len()
    &&& forall|i: int|
        #![trigger actions[i]]
        0 <= i < actions.len() ==> files_as_chosen(
            actions[i],
            messages[from[i]],
            inbox,
            choices,
            sep,
        )
    &&& forall|k: int, p: int|
        #![trigger messages[k], choices[p]]
        0 <= k < messages.len() && 0 <= p < choices.len() && !from.contains(k) ==> class_of(
            messages[k],
        ) != Some((choices[p].cluster.signal, choices[p].cluster.key))
}

/// The first choice for a class is found.
proof fn lemma_choice(choices: Seq<ChoiceView>, m: MessageView)
    requires
        class_of(m) is Some,
    ensures
        ({
            let p = choice_for(choices, class_of(m)->0);
            &&& 0 <= p <= choices.len()
            &&& p < choices.len() ==> suits(choices, m, p)
            &&& p == choices.len() ==> forall|q: int|
                0 <= q < choices.len() ==> class_of(m) != Some(
                    ((#[trigger] choices[q]).cluster.signal, choices[q].cluster.key),
                )
        }),
    decreases choices.len(),
{
    let class = class_of(m)->0;
    if choices.len() > 0 && (choices[0].cluster.signal, choices[0].cluster.key) != class {
        let rest = choices.skip(1);
        lemma_choice(rest, m);
        let p = choice_for(choices, class);
        assert forall|q: int| 0 <= q < p implies class_of(m) != Some(
            ((#[trigger] choices[q]).cluster.signal, choices[q].cluster.key),
        ) by {
            if q > 0 {
                assert(rest[q - 1] == choices[q]);
            }
        }
    }
}

proof fn lemma_moves_from(
    messages: Seq<MessageView>,
    inbox: Seq<char>,
    choices: Seq<ChoiceView>,
    sep: char,
) -> (from: Seq<int>)
    ensures
        moves_from(moves(messages, inbox, choices, sep), messages, inbox, choices, sep, from),
    decreases messages.len(),
{
    if messages.len() == 0 {
        Seq::empty()
    } else {
        let n = messages.len() - 1;
        let less = messages.drop_last();
        let m = messages.last();
        let some = moves(less, inbox, choices, sep);
        let all = moves(messages, inbox, choices, sep);
        let before = lemma_moves_from(less, inbox, choices, sep);
        if class_of(m) is Some {
            lemma_choice(choices, m);
        }
        let from = if move_of(m, inbox, choices, sep) is Some {
            before.push(n)
        } else {
            before
        };
        assert forall|i: int, j: int| 0 <= i < j < from.len() implies #[trigger] from[i]
            < #[trigger] from[j] by {
            if j < before.len() {
                assert(before[i] < before[j]);
            } else {
                assert(before[i] < less.len());
            }
        }
        assert forall|i: int| 0 <= i < from.len() implies 0 <= #[trigger] from[i]
            < messages.len() by {
            if i < before.len() {
                assert(0 <= before[i] < less.len());
            }
        }
        assert forall|i: int|
            #![trigger all[i]]
            0 <= i < all.len() implies files_as_chosen(
            all[i],
            messages[from[i]],
            inbox,
            choices,
            sep,
        ) by {
            if i < some.len() {
                assert(all[i] == some[i]);
                assert(from[i] == before[i]);
                assert(messages[from[i]] == less[from[i]]);
            } else {
                let p = choice_for(choices, class_of(m)->0);
                assert(messages[from[i]] == m);
                assert(suits(choices, m, p));
            }
        }
        assert forall|k: int, p: int|
            #![trigger messages[k], choices[p]]
            0 <= k < messages.len() && 0 <= p < choices.len() && !from.contains(k) implies class_of(
            messages[k],
        ) != Some((choices[p].cluster.signal, choices[p].cluster.key)) by {
            if k < n {
                assert(!before.contains(k)) by {
                    if before.contains(k) {
                        let x = before.index_of(k);
                        assert(from[x] == k);
                    }
                }
                assert(messages[k] == less[k]);
            } else {
                if move_of(m, inbox, choices, sep) is Some {
                    assert(from[before.len() as int] == n);
                }
            }
        }
        assert(moves_from(all, messages, inbox, choices, sep, from));
        from
    }
}

/// Every message goes where its own class was chosen to go. The actions of a plan are the
/// moves of some messages of the inbox, in order and each once: each action names its
/// message, and files it into the folder of the first choice whose cluster has the signal
/// and key of that very message. No message of a chosen class is left out.
pub proof fn law_moves_go_where_chosen(
    plan: PlanView,
    request: PlanRequest,
    choices: Seq<ChoiceView>,
    messages: Seq<MessageView>,
    universe: Seq<MessageView>,
)
    requires
        is_plan(plan, request, choices, messages, universe),
    ensures
        exists|from: Seq<int>| #[trigger]
            moves_from(
                plan.actions,
                messages,
                request.inbox@,
                choices,
                request.separator,
                from,
            ),
        forall|i: int|
            #![trigger plan.actions[i]]
            0 <= i < plan.actions.len() ==> exists|k: int, p: int|
                #![trigger messages[k], choices[p]]
                {
                    &&& 0 <= k < messages.len()
                    &&& 0 <= p < choices.len()
                    &&& class_of(messages[k]) == Some(
                        (choices[p].cluster.signal, choices[p].cluster.key),
                    )
                    &&& plan.actions[i].message_id == messages[k].message_id
                    &&& plan.actions[i].uid == messages[k].uid
                    &&& plan.actions[i].src_filename == messages[k].filename
                    &&& plan.actions[i].src_folder == request.inbox@
                    &&& plan.actions[i].dst_dotpath == choices[p].dotpath
                    &&& plan.actions[i].dst_imap == imap_name(
                        choices[p].dotpath,
                        request.separator,
                    )
                    &&& plan.actions[i].cluster_key == choices[p].cluster.key
                },
{
    let from = lemma_moves_from(messages, request.inbox@, choices, request.separator);
    assert(moves_from(
        plan.actions,
        messages,
        request.inbox@,
        choices,
        request.separator,
        from,
    ));
    assert forall|i: int|
        #![trigger plan.actions[i]]
        0 <= i < plan.actions.len() implies exists|k: int, p: int|
        #![trigger messages[k], choices[p]]
        {
            &&& 0 <= k < messages.len()
            &&& 0 <= p < choices.len()
            &&& class_of(messages[k]) == Some((choices[p].cluster.signal, choices[p].cluster.key))
            &&& plan.actions[i].message_id == messages[k].message_id
            &&& plan.actions[i].uid == messages[k].uid
            &&& plan.actions[i].src_filename == messages[k].filename
            &&& plan.actions[i].src_folder == request.inbox@
            &&& plan.actions[i].dst_dotpath == choices[p].dotpath
            &&& plan.actions[i].dst_imap == imap_name(choices[p].dotpath, request.separator)
            &&& plan.actions[i].cluster_key == choices[p].cluster.key
        } by {
        let p = choose|p: int|
            #[trigger] suits(choices, messages[from[i]], p) && files(
                plan.actions[i],
                messages[from[i]],
                request.inbox@,
                choices[p],
                request.separator,
            );
        let k = from[i];
        assert(messages[k] == messages[k] && choices[p] == choices[p]);
    }
}

// ---- folders ----

/// What is needed are folders of choices that are not known, each once.
proof fn lemma_needed(choices: Seq<ChoiceView>, known: Seq<Seq<char>>)
    ensures
        needed(choices, known).no_duplicates(),
        forall|x: Seq<char>| #[trigger]
            needed(choices, known).contains(x) <==> !known.contains(x) && exists|p: int|
                0 <= p < choices.len() && (#[trigger] choices[p]).dotpath == x,
    decreases choices.len(),
{
    let all = needed(choices, known);
    if choices.len() > 0 {
        let n = choices.len() - 1;
        let less = choices.drop_last();
        let some = needed(less, known);
        lemma_needed(less, known);
        assert forall|x: Seq<char>| #[trigger] all.contains(x) <==> !known.contains(x)
            && exists|p: int|
            0 <= p < choices.len() && (#[trigger] choices[p]).dotpath == x by {
            if all.contains(x) {
                let i = all.index_of(x);
                if i < some.len() {
                    assert(some[i] == x);
                    assert(some.contains(x));
                    let p = choose|p: int|
                        0 <= p < less.len() && (#[trigger] less[p]).dotpath == x;
                    assert(choices[p].dotpath == x);
                } else {
                    assert(choices[n].dotpath == x);
                }
            }
            if !known.contains(x) && exists|p: int|
                0 <= p < choices.len() && (#[trigger] choices[p]).dotpath == x {
                let p = choose|p: int|
                    0 <= p < choices.len() && (#[trigger] choices[p]).dotpath == x;
                if p < n {
                    assert(less[p].dotpath == x);
                    assert(some.contains(x));
                    let i = some.index_of(x);
                    assert(all[i] == x);
                } else if !some.contains(x) {
                    assert(all[some.len() as int] == x);
                } else {
                    let i = some.index_of(x);
                    assert(all[i] == x);
                }
            }
        }
    }
}

/// Exactly the folders that are missing are created: a folder is to be created if and only
/// if it is one of those chosen and does not exist, each is created once, under its dotpath
/// and the IMAP name of that, which is its Sieve target too. So the folder of every action
/// exists already or is to be created.
pub proof fn law_missing_folders_created(
    plan: PlanView,
    request: PlanRequest,
    choices: Seq<ChoiceView>,
    messages: Seq<MessageView>,
    universe: Seq<MessageView>,
)
    requires
        is_plan(plan, request, choices, messages, universe),
    ensures
        forall|i: int|
            #![trigger plan.folders[i]]
            0 <= i < plan.folders.len() ==> {
                &&& !texts(request.known_folders@).contains(plan.folders[i].dotpath)
                &&& exists|p: int|
                    0 <= p < choices.len() && (#[trigger] choices[p]).dotpath
                        == plan.folders[i].dotpath
                &&& plan.folders[i].imap_name == imap_name(
                    plan.folders[i].dotpath,
                    request.separator,
                )
                &&& plan.folders[i].sieve_target == plan.folders[i].imap_name
                &&& !plan.folders[i].exists
            },
        forall|i: int, j: int|
            0 <= i < j < plan.folders.len() ==> (#[trigger] plan.folders[i]).dotpath != (
            #[trigger] plan.folders[j]).dotpath,
        forall|p: int|
            #![trigger choices[p]]
            0 <= p < choices.len() ==> texts(request.known_folders@).contains(choices[p].dotpath)
                || exists|i: int|
                0 <= i < plan.folders.len() && (#[trigger] plan.folders[i]).dotpath
                    == choices[p].dotpath,
        forall|a: int|
            #![trigger plan.actions[a]]
            0 <= a < plan.actions.len() ==> texts(request.known_folders@).contains(
                plan.actions[a].dst_dotpath,
            ) || exists|i: int|
                0 <= i < plan.folders.len() && (#[trigger] plan.folders[i]).dotpath
                    == plan.actions[a].dst_dotpath,
{
    let known = texts(request.known_folders@);
    let names = needed(choices, known);
    let sep = request.separator;
    lemma_needed(choices, known);
    assert forall|i: int|
        #![trigger plan.folders[i]]
        0 <= i < plan.folders.len() implies {
        &&& !known.contains(plan.folders[i].dotpath)
        &&& exists|p: int|
            0 <= p < choices.len() && (#[trigger] choices[p]).dotpath == plan.folders[i].dotpath
        &&& plan.folders[i].imap_name == imap_name(plan.folders[i].dotpath, sep)
        &&& plan.folders[i].sieve_target == plan.folders[i].imap_name
        &&& !plan.folders[i].exists
    } by {
        assert(plan.folders[i].dotpath == names[i]);
        assert(names.contains(names[i]));
    }
    assert forall|p: int|
        #![trigger choices[p]]
        0 <= p < choices.len() implies known.contains(choices[p].dotpath) || exists|i: int|
        0 <= i < plan.folders.len() && (#[trigger] plan.folders[i]).dotpath
            == choices[p].dotpath by {
        if !known.contains(choices[p].dotpath) {
            assert(names.contains(choices[p].dotpath));
            let i = names.index_of(choices[p].dotpath);
            assert(plan.folders[i].dotpath == choices[p].dotpath);
        }
    }
    law_moves_go_where_chosen(plan, request, choices, messages, universe);
    assert forall|a: int|
        #![trigger plan.actions[a]]
        0 <= a < plan.actions.len() implies known.contains(plan.actions[a].dst_dotpath)
        || exists|i: int|
        0 <= i < plan.folders.len() && (#[trigger] plan.folders[i]).dotpath
            == plan.actions[a].dst_dotpath by {
        let (k, p) = choose|k: int, p: int|
            #![trigger messages[k], choices[p]]
            {
                &&& 0 <= k < messages.len()
                &&& 0 <= p < choices.len()
                &&& class_of(messages[k]) == Some(
                    (choices[p].cluster.signal, choices[p].cluster.key),
                )
                &&& plan.actions[a].message_id == messages[k].message_id
                &&& plan.actions[a].uid == messages[k].uid
                &&& plan.actions[a].src_filename == messages[k].filename
                &&& plan.actions[a].src_folder == request.inbox@
                &&& plan.actions[a].dst_dotpath == choices[p].dotpath
                &&& plan.actions[a].dst_imap == imap_name(choices[p].dotpath, sep)
                &&& plan.actions[a].cluster_key == choices[p].cluster.key
            };
        assert(choices[p].dotpath == plan.actions[a].dst_dotpath);
    }
}

// ---- rules ----

/// The test asks for mail of a cluster: the List-Id, the sender's domain or the sender's
/// address, with the cluster's key.
pub open spec fn asks_for(test: SieveTestView, signal: Signal, key: Seq<char>) -> bool {
    match test {
        SieveTestView::HeaderContains { header, value } => signal == Signal::ListId && header
            == "List-Id"@ && value == key,
        SieveTestView::AddressDomain { header, domain } => signal == Signal::SenderDomain
            && header == "From"@ && domain == key,
        SieveTestView::AddressIs { header, address } => signal == Signal::PersonAddress
            && header == "From"@ && address == key,
    }
}

/// A plan has one rule for each choice, in order. The rule asks for mail of the choice's
/// cluster, files it into the chosen folder and stops there; its comment names the cluster
/// and its size. So the mail of each action's class will go where the action goes.
pub proof fn law_rules_follow_choices(
    plan: PlanView,
    request: PlanRequest,
    choices: Seq<ChoiceView>,
    messages: Seq<MessageView>,
    universe: Seq<MessageView>,
)
    requires
        is_plan(plan, request, choices, messages, universe),
    ensures
        plan.sieve_rules.len() == choices.len(),
        forall|p: int|
            #![trigger plan.sieve_rules[p]]
            #![trigger choices[p]]
            0 <= p < choices.len() ==> {
                &&& asks_for(
                    plan.sieve_rules[p].test,
                    choices[p].cluster.signal,
                    choices[p].cluster.key,
                )
                &&& plan.sieve_rules[p].fileinto == imap_name(
                    choices[p].dotpath,
                    request.separator,
                )
                &&& plan.sieve_rules[p].stop
                &&& plan.sieve_rules[p].comment == Some(
                    choices[p].cluster.key + " ("@ + decimal(choices[p].cluster.count)
                        + " messages)"@,
                )
            },
        forall|a: int|
            #![trigger plan.actions[a]]
            0 <= a < plan.actions.len() ==> exists|p: int|
                0 <= p < plan.sieve_rules.len() && (#[trigger] plan.sieve_rules[p]).fileinto
                    == plan.actions[a].dst_imap && asks_for(
                    plan.sieve_rules[p].test,
                    choices[p].cluster.signal,
                    plan.actions[a].cluster_key,
                ),
{
    let sep = request.separator;
    law_moves_go_where_chosen(plan, request, choices, messages, universe);
    assert forall|a: int|
        #![trigger plan.actions[a]]
        0 <= a < plan.actions.len() implies exists|p: int|
        0 <= p < plan.sieve_rules.len() && (#[trigger] plan.sieve_rules[p]).fileinto
            == plan.actions[a].dst_imap && asks_for(
            plan.sieve_rules[p].test,
            choices[p].cluster.signal,
            plan.actions[a].cluster_key,
        ) by {
        let (k, p) = choose|k: int, p: int|
            #![trigger messages[k], choices[p]]
            {
                &&& 0 <= k < messages.len()
                &&& 0 <= p < choices.len()
                &&& class_of(messages[k]) == Some(
                    (choices[p].cluster.signal, choices[p].cluster.key),
                )
                &&& plan.actions[a].message_id == messages[k].message_id
                &&& plan.actions[a].uid == messages[k].uid
                &&& plan.actions[a].src_filename == messages[k].filename
                &&& plan.actions[a].src_folder == request.inbox@
                &&& plan.actions[a].dst_dotpath == choices[p].dotpath
                &&& plan.actions[a].dst_imap == imap_name(choices[p].dotpath, sep)
                &&& plan.actions[a].cluster_key == choices[p].cluster.key
            };
        assert(plan.sieve_rules[p].fileinto == plan.actions[a].dst_imap);
    }
}

// ---- choices ----

/// Some approval has the key.
pub open spec fn approved_key(list: Seq<ApprovalView>) -> spec_fn(ClusterView) -> bool {
    |c: ClusterView| exists|a: int| 0 <= a < list.len() && (#[trigger] list[a]).key == c.key
}

proof fn lemma_first_approval(list: Seq<ApprovalView>, key: Seq<char>)
    ensures
        0 <= first_approval(list, key) <= list.len(),
        first_approval(list, key) < list.len() ==> list[first_approval(list, key)].key == key,
        forall|a: int| 0 <= a < first_approval(list, key) ==> (#[trigger] list[a]).key != key,
    decreases list.len(),
{
    if list.len() > 0 && list[0].key != key {
        let rest = list.skip(1);
        lemma_first_approval(rest, key);
        assert forall|a: int| 0 <= a < first_approval(list, key) implies (
        #[trigger] list[a]).key != key by {
            if a > 0 {
                assert(rest[a - 1] == list[a]);
            }
        }
    }
}

/// The folder that was suggested for a cluster.
pub open spec fn suggested_folder(c: ClusterView) -> Seq<char> {
    match c.destination {
        DestinationView::Existing { dotpath } => dotpath,
        DestinationView::New { dotpath } => dotpath,
    }
}

/// The clusters of choices.
pub open spec fn clusters_of(choices: Seq<ChoiceView>) -> Seq<ClusterView> {
    choices.map_values(|c: ChoiceView| c.cluster)
}

/// Approvals decide what is sorted. Where nothing was approved by name, every cluster is
/// chosen, in order, for its suggested folder. Else exactly the clusters whose key was
/// approved are chosen, in order; each goes into the folder that its first approval names,
/// or into the suggested one where that names none.
pub proof fn law_approvals_decide(
    clusters: Seq<ClusterView>,
    approved: Option<Seq<ApprovalView>>,
)
    ensures
        match approved {
            None => {
                &&& clusters_of(chosen(clusters, approved)) == clusters
                &&& forall|p: int|
                    0 <= p < clusters.len() ==> (#[trigger] chosen(clusters, approved)[p]).dotpath
                        == suggested_folder(clusters[p])
            },
            Some(list) => {
                &&& clusters_of(chosen(clusters, approved)) == clusters.filter(approved_key(list))
                &&& forall|p: int|
                    #![trigger chosen(clusters, approved)[p]]
                    0 <= p < chosen(clusters, approved).len() ==> exists|a: int|
                        {
                            let choice = chosen(clusters, approved)[p];
                            &&& 0 <= a < list.len()
                            &&& (#[trigger] list[a]).key == choice.cluster.key
                            &&& forall|b: int|
                                0 <= b < a ==> (#[trigger] list[b]).key != choice.cluster.key
                            &&& choice.dotpath == match list[a].dotpath {
                                Some(dotpath) => dotpath,
                                None => suggested_folder(choice.cluster),
                            }
                        }
            },
        },
    decreases clusters.len(),
{
    reveal(Seq::filter);
    let all = chosen(clusters, approved);
    if clusters.len() == 0 {
        assert(clusters_of(all) =~= Seq::empty());
        assert(clusters =~= Seq::empty());
    } else {
        let less = clusters.drop_last();
        let c = clusters.last();
        let some = chosen(less, approved);
        law_approvals_decide(less, approved);
        match approved {
            None => {
                assert(clusters_of(all) =~= clusters_of(some).push(c));
                assert(less.push(c) =~= clusters);
                assert forall|p: int| 0 <= p < clusters.len() implies (#[trigger] all[p]).dotpath
                    == suggested_folder(clusters[p]) by {
                    assert(some.len() == clusters_of(some).len());
                    if p < less.len() {
                        assert(all[p] == some[p]);
                        assert(less[p] == clusters[p]);
                    }
                }
            },
            Some(list) => {
                let a = first_approval(list, c.key);
                lemma_first_approval(list, c.key);
                if a < list.len() {
                    assert(list[a].key == c.key);
                    assert(approved_key(list)(c));
                    assert(clusters_of(all) =~= clusters_of(some).push(c));
                } else {
                    assert(!approved_key(list)(c));
                }
                assert forall|p: int|
                    #![trigger all[p]]
                    0 <= p < all.len() implies exists|a: int|
                    {
                        let choice = all[p];
                        &&& 0 <= a < list.len()
                        &&& (#[trigger] list[a]).key == choice.cluster.key
                        &&& forall|b: int|
                            0 <= b < a ==> (#[trigger] list[b]).key != choice.cluster.key
                        &&& choice.dotpath == match list[a].dotpath {
                            Some(dotpath) => dotpath,
                            None => suggested_folder(choice.cluster),
                        }
                    } by {
                    if p < some.len() {
                        assert(all[p] == some[p]);
                    } else {
                        assert(list[a].key == all[p].cluster.key);
                    }
                }
            },
        }
    }
}

// ---- checks ----

/// The action has no Message-ID.
pub open spec fn lacks_id() -> spec_fn(ActionView) -> bool {
    |a: ActionView| a.message_id is None
}

/// The action's destination is one of the folders.
pub open spec fn goes_into(folders: Seq<Seq<char>>) -> spec_fn(ActionView) -> bool {
    |a: ActionView| folders.contains(a.dst_dotpath)
}

/// No message in the source folder of the action has its Message-ID, or, where either of
/// them has none, its UID.
pub open spec fn is_stale(messages: Seq<MessageView>) -> spec_fn(ActionView) -> bool {
    |a: ActionView|
        forall|k: int|
            0 <= k < messages.len() && (#[trigger] messages[k]).folder == a.src_folder ==> if a.message_id
                is Some && messages[k].message_id is Some {
                a.message_id != messages[k].message_id
            } else {
                a.uid is None || a.uid != messages[k].uid
            }
}

/// What a check counts: actions without a Message-ID, actions that no message answers to,
/// and actions into folders that are out of bounds. No such action is missed: a count is
/// zero if and only if there is none.
pub proof fn law_checks_count(
    actions: Seq<ActionView>,
    messages: Seq<MessageView>,
    folders: Seq<Seq<char>>,
)
    ensures
        unidentified(actions) == actions.filter(lacks_id()).len(),
        unresolved(actions, messages) == actions.filter(is_stale(messages)).len(),
        filing_into(actions, folders) == actions.filter(goes_into(folders)).len(),
        unresolved(actions, messages) == 0 <==> forall|i: int|
            0 <= i < actions.len() ==> !is_stale(messages)(#[trigger] actions[i]),
        filing_into(actions, folders) == 0 <==> forall|i: int|
            0 <= i < actions.len() ==> !folders.contains((#[trigger] actions[i]).dst_dotpath),
    decreases actions.len(),
{
    reveal(Seq::filter);
    if actions.len() > 0 {
        let less = actions.drop_last();
        let a = actions.last();
        law_checks_count(less, messages, folders);
        assert(resolves(a, messages) == !is_stale(messages)(a));
        assert(a == actions[actions.len() - 1]);
        assert(forall|i: int| 0 <= i < less.len() ==> less[i] == actions[i]);
        if forall|i: int| 0 <= i < less.len() ==> !is_stale(messages)(#[trigger] less[i]) {
            assert forall|i: int| 0 <= i < actions.len() && !is_stale(messages)(a) implies !is_stale(
                messages,
            )(#[trigger] actions[i]) by {
                if i < less.len() {
                    assert(less[i] == actions[i]);
                }
            }
        } else {
            let i = choose|i: int| 0 <= i < less.len() && is_stale(messages)(#[trigger] less[i]);
            assert(is_stale(messages)(actions[i]));
        }
        if forall|i: int|
            0 <= i < less.len() ==> !folders.contains((#[trigger] less[i]).dst_dotpath) {
            assert forall|i: int|
                0 <= i < actions.len() && !folders.contains(a.dst_dotpath) implies !folders.contains(
                (#[trigger] actions[i]).dst_dotpath,
            ) by {
                if i < less.len() {
                    assert(less[i] == actions[i]);
                }
            }
        } else {
            let i = choose|i: int|
                0 <= i < less.len() && folders.contains((#[trigger] less[i]).dst_dotpath);
            assert(folders.contains(actions[i].dst_dotpath));
        }
    }
}

/// The Message-IDs that are counted are those that some message has.
pub proof fn law_ids_counted(messages: Seq<MessageView>, id: Seq<char>)
    ensures
        ids_among(messages).contains(id) <==> exists|k: int|
            0 <= k < messages.len() && (#[trigger] messages[k]).message_id == Some(id),
    decreases messages.len(),
{
    if messages.len() > 0 {
        let less = messages.drop_last();
        law_ids_counted(less, id);
        if exists|k: int| 0 <= k < less.len() && (#[trigger] less[k]).message_id == Some(id) {
            let k = choose|k: int|
                0 <= k < less.len() && (#[trigger] less[k]).message_id == Some(id);
            assert(messages[k].message_id == Some(id));
        }
        if exists|k: int|
            0 <= k < messages.len() && (#[trigger] messages[k]).message_id == Some(id) {
            let k = choose|k: int|
                0 <= k < messages.len() && (#[trigger] messages[k]).message_id == Some(id);
            if k < less.len() {
                assert(less[k].message_id == Some(id));
            }
        }
        if messages.last().message_id == Some(id) {
            assert(messages[messages.len() - 1].message_id == Some(id));
        }
    }
}

/// What a plan says of itself is true: it is the plan that was asked for, and its precheck
/// counts its own actions and the messages of the universe.
pub proof fn law_plan_tells_the_truth(
    plan: PlanView,
    request: PlanRequest,
    choices: Seq<ChoiceView>,
    messages: Seq<MessageView>,
    universe: Seq<MessageView>,
)
    requires
        is_plan(plan, request, choices, messages, universe),
    ensures
        plan.plan_id == request.plan_id@,
        plan.account_root == request.account_root@,
        plan.inbox == request.inbox@,
        plan.mover == request.mover,
        plan.separator == request.separator,
        plan.precheck.universe_folders == request.universe_folders,
        plan.precheck.total_messages == universe.len(),
        plan.precheck.actions == plan.actions.len(),
        plan.precheck.actions_missing_message_id == plan.actions.filter(lacks_id()).len(),
        plan.precheck.actions_unresolved == plan.actions.filter(is_stale(universe)).len(),
        exists|ids: Set<Seq<char>>|
            plan.precheck.distinct_message_ids == #[trigger] ids.len() && forall|id: Seq<char>| #[trigger]
                ids.contains(id) <==> exists|k: int|
                    0 <= k < universe.len() && (#[trigger] universe[k]).message_id == Some(id),
{
    law_checks_count(plan.actions, universe, Seq::empty());
    let ids = ids_among(universe);
    assert forall|id: Seq<char>| #[trigger] ids.contains(id) <==> exists|k: int|
        0 <= k < universe.len() && (#[trigger] universe[k]).message_id == Some(id) by {
        law_ids_counted(universe, id);
    }
    assert(plan.precheck.distinct_message_ids == ids.len());
}

/// Mail is touched only on purpose: a plan may be applied if and only if this is a dry run,
/// or it was confirmed and a server is named where one is needed.
pub proof fn law_no_unconfirmed_run(
    mover: MoverKind,
    dry_run: bool,
    confirmed: bool,
    has_host: bool,
)
    ensures
        refusal(mover, dry_run, confirmed, has_host) is None <==> dry_run || (confirmed && (mover
            == MoverKind::Local || has_host)),
{
}

/// Folders are created in the order in which they are first needed.
pub proof fn law_folders_in_order(choices: Seq<ChoiceView>, known: Seq<Seq<char>>, i: int, j: int)
    requires
        0 <= i < j < needed(choices, known).len(),
    ensures
        exists|p: int|
            0 <= p < choices.len() && (#[trigger] choices[p]).dotpath == needed(choices, known)[i]
                && forall|q: int|
                0 <= q <= p ==> (#[trigger] choices[q]).dotpath != needed(choices, known)[j],
    decreases choices.len(),
{
    let less = choices.drop_last();
    let some = needed(less, known);
    let all = needed(choices, known);
    lemma_needed(less, known);
    lemma_needed(choices, known);
    if j < some.len() {
        law_folders_in_order(less, known, i, j);
        let p = choose|p: int|
            0 <= p < less.len() && (#[trigger] less[p]).dotpath == some[i] && forall|q: int|
                0 <= q <= p ==> (#[trigger] less[q]).dotpath != some[j];
        assert(choices[p].dotpath == all[i]);
        assert forall|q: int| 0 <= q <= p implies (#[trigger] choices[q]).dotpath != all[j] by {
            assert(less[q] == choices[q]);
        }
    } else {
        assert(all[j] == choices.last().dotpath);
        assert(some.contains(some[i]));
        let p = choose|p: int| 0 <= p < less.len() && (#[trigger] less[p]).dotpath == some[i];
        assert(choices[p].dotpath == all[i]);
        assert forall|q: int| 0 <= q <= p implies (#[trigger] choices[q]).dotpath != all[j] by {
            assert(less[q] == choices[q]);
            if choices[q].dotpath == all[j] {
                assert(less[q].dotpath == all[j]);
                assert(some.contains(all[j]));
            }
        }
    }
}

} // verus!
