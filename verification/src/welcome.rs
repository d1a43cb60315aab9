//! Signing in, and choosing a workspace.

use crate::az::{AzLoginState, Workspace, WorkspaceV};
use crate::order::{sort_set, sorted_set, sorted_set_holds};
use crate::text::{cat3, cat5, decimal, digits, same, views, Text};
use vstd::prelude::*;

verus! {

/// How often a sign-in in the browser is asked about before giving up.
pub const LOGIN_POLLS: u32 = 24;

/// Seconds between two of those questions.
pub const LOGIN_POLL_SECONDS: u64 = 5;

#[derive(Clone, Copy, Debug, PartialEq, Eq, Structural)]
pub enum PollStep {
    SignedIn,
    AskAgain,
    GiveUp,
}

pub fn is_signed_in(state: &AzLoginState) -> (r: bool)
    ensures
        r == (state is LoggedIn),
{
    match state {
        AzLoginState::LoggedIn { .. } => true,
        _ => false,
    }
}

/// What to do after having asked `asked` times, the last answer being
/// `state`. The sign-in itself has `ended` once its process has: without
/// anyone signed in it was then abandoned.
pub fn after_poll(asked: u32, ended: bool, state: &AzLoginState) -> (r: PollStep)
    ensures
        r == if state is LoggedIn {
            PollStep::SignedIn
        } else if asked < LOGIN_POLLS && !ended {
            PollStep::AskAgain
        } else {
            PollStep::GiveUp
        },
        !(state is LoggedIn) ==> (r is AskAgain <==> asked < 24 && !ended),
{
    if is_signed_in(state) {
        PollStep::SignedIn
    } else if asked < LOGIN_POLLS && !ended {
        PollStep::AskAgain
    } else {
        PollStep::GiveUp
    }
}

/// The subscriptions that workspaces are in.
pub open spec fn subscriptions_in(list: Seq<WorkspaceV>) -> Seq<Text> {
    list.map_values(|w: WorkspaceV| w.subscription_id)
}

/// How many subscriptions were looked at: those that had workspaces, and
/// those that could not be read.
pub fn subscription_count(list: &Vec<Workspace>, skipped: usize) -> (r: usize)
    requires
        list@.len() + skipped <= usize::MAX,
    ensures
        r == sorted_set(subscriptions_in(views(list@))).len() + skipped,
{
    let ghost all = subscriptions_in(views(list@));
    let mut ids: Vec<String> = Vec::new();
    let mut i: usize = 0;
    while i < list.len()
        invariant
            i <= list@.len(),
            all == subscriptions_in(views(list@)),
            ids@.len() == i,
            forall|k: int| 0 <= k < i ==> (#[trigger] ids@[k])@ == all[k],
        decreases list@.len() - i,
    {
        ids.push(list[i].subscription_id.clone());
        i = i + 1;
    }
    assert(views(ids@) =~= all);
    proof {
        set_no_longer(all);
    }
    let set = sort_set(&ids);
    assert(views(set@).len() == set@.len());
    set.len() + skipped
}

proof fn set_no_longer(s: Seq<Text>)
    ensures
        sorted_set(s).len() <= s.len(),
    decreases s.len(),
{
    if s.len() > 0 {
        set_no_longer(s.drop_last());
        sorted_set_holds(s.drop_last());
        crate::order::with_text_len(sorted_set(s.drop_last()), s.last());
    }
}

/// What to say when there is no workspace to choose. That nothing was found
/// is claimed only when every subscription answered.
pub fn empty_message(skipped: usize, subscriptions: usize) -> (r: String)
    ensures
        r@ == if skipped == 0 {
            "No Log Analytics workspaces in any of your "@ + digits(subscriptions as nat)
                + " subscriptions."@
        } else {
            "Could not read "@ + digits(skipped as nat) + " of "@ + digits(subscriptions as nat)
                + " subscriptions, so this is not an answer about whether you have workspaces."@
        },
{
    let n = decimal(subscriptions as u128);
    if skipped == 0 {
        cat3(
            "No Log Analytics workspaces in any of your ",
            n.as_str(),
            " subscriptions.",
        )
    } else {
        let k = decimal(skipped as u128);
        cat5(
            "Could not read ",
            k.as_str(),
            " of ",
            n.as_str(),
            " subscriptions, so this is not an answer about whether you have workspaces.",
        )
    }
}

/// The first workspace with an id. Names do not identify one: two
/// subscriptions can hold the same.
pub open spec fn workspace_with(list: Seq<WorkspaceV>, id: Text) -> Option<WorkspaceV>
    decreases list.len(),
{
    if list.len() == 0 {
        None
    } else if list[0].customer_id == id {
        Some(list[0])
    } else {
        workspace_with(list.drop_first(), id)
    }
}

pub fn find_workspace(list: &Vec<Workspace>, id: &str) -> (r: Option<Workspace>)
    ensures
        match r {
            Some(w) => workspace_with(views(list@), id@) == Some(w@),
            None => workspace_with(views(list@), id@) is None,
        },
{
    let ghost all = views(list@);
    let mut i: usize = 0;
    assert(all.skip(0) =~= all);
    while i < list.len()
        invariant
            i <= list@.len(),
            all == views(list@),
            workspace_with(all, id@) == workspace_with(all.skip(i as int), id@),
        decreases list@.len() - i,
    {
        assert(all.skip(i as int)[0] == list@[i as int]@);
        assert(all.skip(i as int).drop_first() =~= all.skip(i + 1));
        if same(list[i].customer_id.as_str(), id) {
            return Some(list[i].clone());
        }
        i = i + 1;
    }
    assert(all.skip(i as int).len() == 0);
    None
}

/// A workspace is found by its id: the first that has it, and none where
/// none has.
pub proof fn workspaces_are_found_by_id(list: Seq<WorkspaceV>, id: Text, i: int)
    requires
        0 <= i <= list.len(),
        forall|j: int| 0 <= j < i ==> (#[trigger] list[j]).customer_id != id,
    ensures
        i < list.len() && list[i].customer_id == id ==> workspace_with(list, id) == Some(list[i]),
        i == list.len() ==> workspace_with(list, id) is None,
    decreases i,
{
    if i > 0 {
        let rest = list.drop_first();
        assert(list[0].customer_id != id);
        assert forall|j: int| 0 <= j < i - 1 implies (#[trigger] rest[j]).customer_id != id by {
            assert(rest[j] == list[j + 1]);
        }
        workspaces_are_found_by_id(rest, id, i - 1);
    }
}

} // verus!
