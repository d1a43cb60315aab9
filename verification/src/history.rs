//! Recently traced values, recently opened workspaces, and what the user has
//! said a failure is.

use crate::az::{Workspace, WorkspaceV};
use crate::signals::copy_rules;
use crate::text::{same, views, Text};
use crate::trace::{ErrorRule, RuleV};
use vstd::prelude::*;

verus! {

/// Enough to get back to what was just looked at, few enough for one row.
pub const MAX_ENTRIES: usize = 5;

/// Recently opened workspaces.
pub const MAX_WORKSPACES: usize = 5;

/// A value that was traced, and the field it was traced on.
#[derive(Debug, PartialEq)]
pub struct Entry {
    pub value: String,
    pub key: String,
}

#[verifier::ext_equal]
pub ghost struct EntryV {
    pub value: Text,
    pub key: Text,
}

impl View for Entry {
    type V = EntryV;

    open spec fn view(&self) -> EntryV {
        EntryV { value: self.value@, key: self.key@ }
    }
}

impl Clone for Entry {
    fn clone(&self) -> (r: Entry)
        ensures
            r@ == self@,
    {
        Entry { value: self.value.clone(), key: self.key.clone() }
    }
}

/// What is remembered, by workspace id where it belongs to one.
#[derive(Debug, PartialEq)]
pub struct Store {
    pub workspaces: Vec<(String, Vec<Entry>)>,
    /// Most recently opened first.
    pub recent_workspaces: Vec<Workspace>,
    pub error_rules: Vec<(String, Vec<ErrorRule>)>,
}

impl Default for Store {
    fn default() -> (r: Store)
        ensures
            r.workspaces@.len() == 0,
            r.recent_workspaces@.len() == 0,
            r.error_rules@.len() == 0,
    {
        Store { workspaces: Vec::new(), recent_workspaces: Vec::new(), error_rules: Vec::new() }
    }
}

// ── Values held by id ─────────────────────────────────────────────────────

/// What a list holds under an id.
pub open spec fn held<T>(list: Seq<(String, T)>, id: Text) -> Option<T>
    decreases list.len(),
{
    if list.len() == 0 {
        None
    } else if list[0].0@ == id {
        Some(list[0].1)
    } else {
        held(list.drop_first(), id)
    }
}

proof fn held_after_remove<T>(list: Seq<(String, T)>, i: int, id: Text)
    requires
        0 <= i < list.len(),
        list[i].0@ != id,
    ensures
        held(list.remove(i), id) == held(list, id),
    decreases list.len(),
{
    if i == 0 {
        assert(list.remove(0) =~= list.drop_first());
    } else {
        assert(list.remove(i).drop_first() =~= list.drop_first().remove(i - 1));
        held_after_remove(list.drop_first(), i - 1, id);
    }
}

proof fn held_after_push<T>(list: Seq<(String, T)>, item: (String, T), id: Text)
    ensures
        held(list.push(item), id) == match held(list, id) {
            Some(v) => Some(v),
            None => if item.0@ == id {
                Some(item.1)
            } else {
                None
            },
        },
    decreases list.len(),
{
    let longer = list.push(item);
    if list.len() == 0 {
        assert(longer.drop_first() =~= Seq::empty());
        assert(held(longer.drop_first(), id) is None);
    } else {
        assert(longer.drop_first() =~= list.drop_first().push(item));
        held_after_push(list.drop_first(), item, id);
    }
}

proof fn held_nowhere<T>(list: Seq<(String, T)>, id: Text)
    requires
        forall|k: int| 0 <= k < list.len() ==> (#[trigger] list[k]).0@ != id,
    ensures
        held(list, id) is None,
    decreases list.len(),
{
    if list.len() > 0 {
        assert forall|k: int| 0 <= k < list.drop_first().len() implies (
        #[trigger] list.drop_first()[k]).0@ != id by {
            assert(list.drop_first()[k] == list[k + 1]);
        }
        held_nowhere(list.drop_first(), id);
    }
}

fn find<'a, T>(list: &'a Vec<(String, T)>, id: &str) -> (r: Option<&'a T>)
    ensures
        match r {
            Some(v) => held(list@, id@) == Some(*v),
            None => held(list@, id@) is None,
        },
{
    let mut i: usize = 0;
    assert(list@.skip(0) =~= list@);
    while i < list.len()
        invariant
            i <= list@.len(),
            held(list@, id@) == held(list@.skip(i as int), id@),
        decreases list@.len() - i,
    {
        assert(list@.skip(i as int).drop_first() =~= list@.skip(i + 1));
        if same(list[i].0.as_str(), id) {
            return Some(&list[i].1);
        }
        i = i + 1;
    }
    None
}

fn drop_id<T>(list: &mut Vec<(String, T)>, id: &str)
    ensures
        held(final(list)@, id@) is None,
        forall|other: Text| other != id@ ==> #[trigger] held(final(list)@, other) == held(
            old(list)@,
            other,
        ),
{
    let ghost start = list@;
    let mut i: usize = 0;
    while i < list.len()
        invariant
            i <= list@.len(),
            forall|k: int| 0 <= k < i ==> (#[trigger] list@[k]).0@ != id@,
            forall|other: Text| other != id@ ==> #[trigger] held(list@, other) == held(
                start,
                other,
            ),
        decreases list@.len() - i,
    {
        if same(list[i].0.as_str(), id) {
            let ghost before = list@;
            let gone = list.remove(i);
            proof {
                assert forall|other: Text| other != id@ implies #[trigger] held(list@, other)
                    == held(start, other) by {
                    held_after_remove(before, i as int, other);
                    assert(held(before, other) == held(start, other));
                }
            }
        } else {
            i = i + 1;
        }
    }
    proof {
        held_nowhere(list@, id@);
    }
}

fn put<T>(list: &mut Vec<(String, T)>, id: &str, item: T)
    ensures
        held(final(list)@, id@) == Some(item),
        forall|other: Text| other != id@ ==> #[trigger] held(final(list)@, other) == held(
            old(list)@,
            other,
        ),
{
    let ghost start = list@;
    drop_id(list, id);
    let ghost rest = list@;
    let key: String = id.to_owned();
    list.push((key, item));
    proof {
        held_after_push(rest, (key, item), id@);
        assert forall|other: Text| other != id@ implies #[trigger] held(list@, other) == held(
            start,
            other,
        ) by {
            held_after_push(rest, (key, item), other);
            assert(held(rest, other) == held(start, other));
        }
    }
}

// ── Traced values ─────────────────────────────────────────────────────────

/// A list without the entries for a value.
pub open spec fn without_value(list: Seq<EntryV>, value: Text) -> Seq<EntryV>
    decreases list.len(),
{
    if list.len() == 0 {
        Seq::empty()
    } else {
        let before = without_value(list.drop_last(), value);
        if list.last().value == value {
            before
        } else {
            before.push(list.last())
        }
    }
}

/// At most the first so many of a list.
pub open spec fn capped<T>(list: Seq<T>, most: int) -> Seq<T> {
    if list.len() <= most {
        list
    } else {
        list.take(most)
    }
}

/// Most recent first, no value twice, capped.
pub open spec fn remembered(list: Seq<EntryV>, e: EntryV) -> Seq<EntryV> {
    capped(seq![e] + without_value(list, e.value), MAX_ENTRIES as int)
}

/// Records an entry as the most recent. A value that is already there moves
/// to the front.
pub fn insert(list: &mut Vec<Entry>, entry: Entry)
    ensures
        views(final(list)@) == remembered(views(old(list)@), entry@),
{
    let ghost all = views(list@);
    let ghost ev = entry@;
    let mut out: Vec<Entry> = Vec::new();
    let mut i: usize = 0;
    assert(all.take(0) =~= Seq::empty());
    assert(views(out@) =~= Seq::<EntryV>::empty());
    while i < list.len()
        invariant
            i <= list@.len(),
            all == views(list@),
            ev == entry@,
            views(out@) == without_value(all.take(i as int), ev.value),
        decreases list@.len() - i,
    {
        assert(all.take(i + 1).drop_last() =~= all.take(i as int));
        assert(all.take(i + 1).last() == list@[i as int]@);
        if !same(list[i].value.as_str(), entry.value.as_str()) {
            let ghost before = views(out@);
            out.push(list[i].clone());
            assert(views(out@) =~= before.push(all[i as int]));
        }
        i = i + 1;
    }
    assert(all.take(i as int) =~= all);
    let ghost rest = views(out@);
    out.insert(0, entry);
    assert(views(out@) =~= seq![ev] + rest);
    let ghost whole = views(out@);
    out.truncate(MAX_ENTRIES);
    assert(views(out@) =~= capped(whole, MAX_ENTRIES as int));
    *list = out;
}

/// The values remembered for a workspace.
pub open spec fn loaded(store: Store, id: Text) -> Seq<EntryV> {
    match held(store.workspaces@, id) {
        Some(list) => views(list@),
        None => Seq::empty(),
    }
}

fn copy_entries(list: &Vec<Entry>) -> (r: Vec<Entry>)
    ensures
        views(r@) == views(list@),
{
    let mut out: Vec<Entry> = Vec::new();
    let mut i: usize = 0;
    while i < list.len()
        invariant
            i <= list@.len(),
            out@.len() == i,
            forall|k: int| 0 <= k < i ==> (#[trigger] out@[k])@ == list@[k]@,
        decreases list@.len() - i,
    {
        out.push(list[i].clone());
        i = i + 1;
    }
    assert(views(out@) =~= views(list@));
    out
}

/// The values remembered for a workspace, most recent first.
pub fn load(store: &Store, workspace_id: &str) -> (r: Vec<Entry>)
    ensures
        views(r@) == loaded(*store, workspace_id@),
{
    match find(&store.workspaces, workspace_id) {
        Some(list) => copy_entries(list),
        None => {
            let none: Vec<Entry> = Vec::new();
            assert(views(none@) =~= Seq::<EntryV>::empty());
            none
        },
    }
}

/// Records a value as the most recent, and returns the list as it is then.
pub fn record(store: &mut Store, workspace_id: &str, entry: Entry) -> (r: Vec<Entry>)
    ensures
        views(r@) == remembered(loaded(*old(store), workspace_id@), entry@),
        loaded(*final(store), workspace_id@) == views(r@),
        forall|other: Text| other != workspace_id@ ==> #[trigger] loaded(*final(store), other)
            == loaded(*old(store), other),
        final(store).recent_workspaces == old(store).recent_workspaces,
        final(store).error_rules == old(store).error_rules,
{
    let ghost start = *store;
    let mut list = load(store, workspace_id);
    insert(&mut list, entry);
    let shown = copy_entries(&list);
    put(&mut store.workspaces, workspace_id, list);
    assert forall|other: Text| other != workspace_id@ implies #[trigger] loaded(*store, other)
        == loaded(start, other) by {
        assert(held(store.workspaces@, other) == held(start.workspaces@, other));
    }
    shown
}

/// Forgets the values of a workspace.
pub fn clear(store: &mut Store, workspace_id: &str) -> (r: Vec<Entry>)
    ensures
        r@.len() == 0,
        held(final(store).workspaces@, workspace_id@) is None,
        forall|other: Text| other != workspace_id@ ==> #[trigger] loaded(*final(store), other)
            == loaded(*old(store), other),
        final(store).recent_workspaces == old(store).recent_workspaces,
        final(store).error_rules == old(store).error_rules,
{
    let ghost start = *store;
    drop_id(&mut store.workspaces, workspace_id);
    assert forall|other: Text| other != workspace_id@ implies #[trigger] loaded(*store, other)
        == loaded(start, other) by {
        assert(held(store.workspaces@, other) == held(start.workspaces@, other));
    }
    Vec::new()
}

/// Whether no value stands in a list twice.
pub open spec fn values_apart(list: Seq<EntryV>) -> bool {
    forall|i: int, j: int|
        0 <= i < j < list.len() ==> #[trigger] list[i].value != #[trigger] list[j].value
}

proof fn without_value_holds(list: Seq<EntryV>, value: Text)
    ensures
        forall|k: int|
            0 <= k < without_value(list, value).len() ==> (#[trigger] without_value(
                list,
                value,
            )[k]).value != value && list.contains(without_value(list, value)[k]),
        forall|k: int|
            0 <= k < list.len() && (#[trigger] list[k]).value != value ==> without_value(
                list,
                value,
            ).contains(list[k]),
        values_apart(list) ==> values_apart(without_value(list, value)),
    decreases list.len(),
{
    if list.len() > 0 {
        let shorter = list.drop_last();
        without_value_holds(shorter, value);
        let before = without_value(shorter, value);
        let out = without_value(list, value);
        assert forall|k: int| 0 <= k < out.len() implies (#[trigger] out[k]).value != value
            && list.contains(out[k]) by {
            if k < before.len() {
                assert(out[k] == before[k]);
                assert(shorter.contains(before[k]));
                let i = choose|i: int| 0 <= i < shorter.len() && shorter[i] == before[k];
                assert(list[i] == out[k]);
            } else {
                assert(list[list.len() - 1] == out[k]);
            }
        }
        assert forall|k: int| 0 <= k < list.len() && (#[trigger] list[k]).value
            != value implies out.contains(list[k]) by {
            if k < shorter.len() {
                assert(shorter[k] == list[k]);
                assert(before.contains(shorter[k]));
                let i = choose|i: int| 0 <= i < before.len() && before[i] == shorter[k];
                assert(out[i] == list[k]);
            } else {
                assert(out[out.len() - 1] == list[k]);
            }
        }
        if values_apart(list) {
            assert forall|i: int, j: int| 0 <= i < j < shorter.len() implies (
            #[trigger] shorter[i]).value != (#[trigger] shorter[j]).value by {
                assert(list[i].value != list[j].value);
            }
            assert forall|i: int, j: int| 0 <= i < j < out.len() implies #[trigger] out[i].value
                != #[trigger] out[j].value by {
                assert(out[i] == before[i]);
                if j < before.len() {
                    assert(out[j] == before[j]);
                } else {
                    assert(shorter.contains(before[i]));
                    let p = choose|p: int| 0 <= p < shorter.len() && shorter[p] == before[i];
                    assert(list[p].value != list[list.len() - 1].value);
                }
            }
        }
    }
}

/// The value recorded last comes first, and no more are kept than the cap.
pub proof fn latest_value_leads(list: Seq<EntryV>, e: EntryV)
    ensures
        1 <= remembered(list, e).len() <= MAX_ENTRIES,
        remembered(list, e)[0] == e,
{
}

/// A list that names no value twice never comes to.
pub proof fn no_value_is_remembered_twice(list: Seq<EntryV>, e: EntryV)
    requires
        values_apart(list),
    ensures
        values_apart(remembered(list, e)),
{
    without_value_holds(list, e.value);
    let rest = without_value(list, e.value);
    let whole = seq![e] + rest;
    assert forall|i: int, j: int| 0 <= i < j < whole.len() implies #[trigger] whole[i].value
        != #[trigger] whole[j].value by {
        assert(whole[j] == rest[j - 1]);
        if i > 0 {
            assert(whole[i] == rest[i - 1]);
        }
    }
}

/// A value falls off only when there is no room for it: while the others
/// are fewer than the cap, every one of them is still there.
pub proof fn only_the_oldest_fall_off(list: Seq<EntryV>, e: EntryV, k: int)
    requires
        0 <= k < list.len(),
        list[k].value != e.value,
        without_value(list, e.value).len() < MAX_ENTRIES,
    ensures
        remembered(list, e).contains(list[k]),
{
    without_value_holds(list, e.value);
    let rest = without_value(list, e.value);
    assert(rest.contains(list[k]));
    let i = choose|i: int| 0 <= i < rest.len() && rest[i] == list[k];
    assert(remembered(list, e)[i + 1] == list[k]);
}

proof fn without_leading_value(e: EntryV, rest: Seq<EntryV>)
    requires
        forall|k: int| 0 <= k < rest.len() ==> (#[trigger] rest[k]).value != e.value,
    ensures
        without_value(seq![e] + rest, e.value) == rest,
    decreases rest.len(),
{
    let whole = seq![e] + rest;
    if rest.len() == 0 {
        assert(whole.drop_last() =~= Seq::empty());
        assert(without_value(whole.drop_last(), e.value) =~= Seq::empty());
    } else {
        assert(whole.drop_last() =~= seq![e] + rest.drop_last());
        without_leading_value(e, rest.drop_last());
        assert(rest.drop_last().push(rest.last()) =~= rest);
    }
}

/// Recording the same entry twice is recording it once.
pub proof fn recording_again_changes_nothing(list: Seq<EntryV>, e: EntryV)
    ensures
        remembered(remembered(list, e), e) == remembered(list, e),
{
    without_value_holds(list, e.value);
    let rest = without_value(list, e.value);
    let once = remembered(list, e);
    let tail = once.drop_first();
    assert forall|k: int| 0 <= k < tail.len() implies (#[trigger] tail[k]).value != e.value by {
        assert(tail[k] == rest[k]);
    }
    assert(once =~= seq![e] + tail);
    without_leading_value(e, tail);
    assert(remembered(once, e) =~= once);
}

// ── Recently opened workspaces ────────────────────────────────────────────

/// A list without the workspaces of an id.
pub open spec fn without_workspace(list: Seq<WorkspaceV>, id: Text) -> Seq<WorkspaceV>
    decreases list.len(),
{
    if list.len() == 0 {
        Seq::empty()
    } else {
        let before = without_workspace(list.drop_last(), id);
        if list.last().customer_id == id {
            before
        } else {
            before.push(list.last())
        }
    }
}

/// Most recent first, no id twice, capped. Names do not tell workspaces
/// apart: two subscriptions can hold the same one.
pub open spec fn reopened(list: Seq<WorkspaceV>, w: WorkspaceV) -> Seq<WorkspaceV> {
    capped(seq![w] + without_workspace(list, w.customer_id), MAX_WORKSPACES as int)
}

fn keep_others(list: &Vec<Workspace>, id: &str) -> (r: Vec<Workspace>)
    ensures
        views(r@) == without_workspace(views(list@), id@),
{
    let ghost all = views(list@);
    let mut out: Vec<Workspace> = Vec::new();
    let mut i: usize = 0;
    assert(all.take(0) =~= Seq::empty());
    assert(views(out@) =~= Seq::<WorkspaceV>::empty());
    while i < list.len()
        invariant
            i <= list@.len(),
            all == views(list@),
            views(out@) == without_workspace(all.take(i as int), id@),
        decreases list@.len() - i,
    {
        assert(all.take(i + 1).drop_last() =~= all.take(i as int));
        assert(all.take(i + 1).last() == list@[i as int]@);
        if !same(list[i].customer_id.as_str(), id) {
            let ghost before = views(out@);
            out.push(list[i].clone());
            assert(views(out@) =~= before.push(all[i as int]));
        }
        i = i + 1;
    }
    assert(all.take(i as int) =~= all);
    out
}

/// Records a workspace as the one opened last.
pub fn insert_workspace(list: &mut Vec<Workspace>, workspace: Workspace)
    ensures
        views(final(list)@) == reopened(views(old(list)@), workspace@),
{
    let ghost wv = workspace@;
    let mut out = keep_others(list, workspace.customer_id.as_str());
    let ghost rest = views(out@);
    out.insert(0, workspace);
    assert(views(out@) =~= seq![wv] + rest);
    let ghost whole = views(out@);
    out.truncate(MAX_WORKSPACES);
    assert(views(out@) =~= capped(whole, MAX_WORKSPACES as int));
    *list = out;
}

fn copy_workspaces(list: &Vec<Workspace>) -> (r: Vec<Workspace>)
    ensures
        views(r@) == views(list@),
{
    let mut out: Vec<Workspace> = Vec::new();
    let mut i: usize = 0;
    while i < list.len()
        invariant
            i <= list@.len(),
            out@.len() == i,
            forall|k: int| 0 <= k < i ==> (#[trigger] out@[k])@ == list@[k]@,
        decreases list@.len() - i,
    {
        out.push(list[i].clone());
        i = i + 1;
    }
    assert(views(out@) =~= views(list@));
    out
}

/// The workspaces opened recently, the latest first.
pub fn load_workspaces(store: &Store) -> (r: Vec<Workspace>)
    ensures
        views(r@) == views(store.recent_workspaces@),
{
    copy_workspaces(&store.recent_workspaces)
}

/// Records a workspace as opened, and returns the list as it is then.
pub fn record_workspace(store: &mut Store, workspace: &Workspace) -> (r: Vec<Workspace>)
    ensures
        views(r@) == reopened(views(old(store).recent_workspaces@), workspace@),
        views(final(store).recent_workspaces@) == views(r@),
        final(store).workspaces == old(store).workspaces,
        final(store).error_rules == old(store).error_rules,
{
    let mut list = copy_workspaces(&store.recent_workspaces);
    insert_workspace(&mut list, workspace.clone());
    let shown = copy_workspaces(&list);
    store.recent_workspaces = list;
    shown
}

/// Forgets a workspace, and returns the list as it is then.
pub fn forget_workspace(store: &mut Store, workspace_id: &str) -> (r: Vec<Workspace>)
    ensures
        views(r@) == without_workspace(views(old(store).recent_workspaces@), workspace_id@),
        views(final(store).recent_workspaces@) == views(r@),
        final(store).workspaces == old(store).workspaces,
        final(store).error_rules == old(store).error_rules,
{
    let list = keep_others(&store.recent_workspaces, workspace_id);
    let shown = copy_workspaces(&list);
    store.recent_workspaces = list;
    shown
}

/// Whether no id stands in a list twice.
pub open spec fn ids_apart(list: Seq<WorkspaceV>) -> bool {
    forall|i: int, j: int|
        0 <= i < j < list.len() ==> #[trigger] list[i].customer_id
            != #[trigger] list[j].customer_id
}

proof fn without_workspace_holds(list: Seq<WorkspaceV>, id: Text)
    ensures
        forall|k: int|
            0 <= k < without_workspace(list, id).len() ==> (#[trigger] without_workspace(
                list,
                id,
            )[k]).customer_id != id && list.contains(without_workspace(list, id)[k]),
        ids_apart(list) ==> ids_apart(without_workspace(list, id)),
    decreases list.len(),
{
    if list.len() > 0 {
        let shorter = list.drop_last();
        without_workspace_holds(shorter, id);
        let before = without_workspace(shorter, id);
        let out = without_workspace(list, id);
        assert forall|k: int| 0 <= k < out.len() implies (#[trigger] out[k]).customer_id != id
            && list.contains(out[k]) by {
            if k < before.len() {
                assert(out[k] == before[k]);
                assert(shorter.contains(before[k]));
                let i = choose|i: int| 0 <= i < shorter.len() && shorter[i] == before[k];
                assert(list[i] == out[k]);
            } else {
                assert(list[list.len() - 1] == out[k]);
            }
        }
        if ids_apart(list) {
            assert forall|i: int, j: int| 0 <= i < j < shorter.len() implies (
            #[trigger] shorter[i]).customer_id != (#[trigger] shorter[j]).customer_id by {
                assert(list[i].customer_id != list[j].customer_id);
            }
            assert forall|i: int, j: int| 0 <= i < j < out.len() implies
                #[trigger] out[i].customer_id != #[trigger] out[j].customer_id by {
                assert(out[i] == before[i]);
                if j < before.len() {
                    assert(out[j] == before[j]);
                } else {
                    assert(shorter.contains(before[i]));
                    let p = choose|p: int| 0 <= p < shorter.len() && shorter[p] == before[i];
                    assert(list[p].customer_id != list[list.len() - 1].customer_id);
                }
            }
        }
    }
}

/// The workspace opened last comes first, no more are kept than the cap, and
/// a list that names no id twice never comes to.
pub proof fn latest_workspace_leads(list: Seq<WorkspaceV>, w: WorkspaceV)
    requires
        ids_apart(list),
    ensures
        1 <= reopened(list, w).len() <= MAX_WORKSPACES,
        reopened(list, w)[0] == w,
        ids_apart(reopened(list, w)),
{
    without_workspace_holds(list, w.customer_id);
    let rest = without_workspace(list, w.customer_id);
    let whole = seq![w] + rest;
    assert forall|i: int, j: int| 0 <= i < j < whole.len() implies #[trigger] whole[i].customer_id
        != #[trigger] whole[j].customer_id by {
        assert(whole[j] == rest[j - 1]);
        if i > 0 {
            assert(whole[i] == rest[i - 1]);
        }
    }
}

/// A workspace that was forgotten is not in the list.
pub proof fn forgotten_is_gone(list: Seq<WorkspaceV>, id: Text, k: int)
    requires
        0 <= k < without_workspace(list, id).len(),
    ensures
        without_workspace(list, id)[k].customer_id != id,
{
    without_workspace_holds(list, id);
}

// ── Error rules ───────────────────────────────────────────────────────────

/// The rules of a workspace.
pub open spec fn rules_of(store: Store, id: Text) -> Seq<RuleV> {
    match held(store.error_rules@, id) {
        Some(list) => views(list@),
        None => Seq::empty(),
    }
}

/// The rules of a workspace.
pub fn load_rules(store: &Store, workspace_id: &str) -> (r: Vec<ErrorRule>)
    ensures
        views(r@) == rules_of(*store, workspace_id@),
{
    match find(&store.error_rules, workspace_id) {
        Some(list) => copy_rules(list),
        None => {
            let none: Vec<ErrorRule> = Vec::new();
            assert(views(none@) =~= Seq::<RuleV>::empty());
            none
        },
    }
}

/// Replaces the rules of a workspace; without any, nothing is kept for it.
pub fn save_rules(store: &mut Store, workspace_id: &str, rules: &Vec<ErrorRule>)
    ensures
        rules_of(*final(store), workspace_id@) == views(rules@),
        held(final(store).error_rules@, workspace_id@) is None <==> rules@.len() == 0,
        forall|other: Text| other != workspace_id@ ==> #[trigger] rules_of(*final(store), other)
            == rules_of(*old(store), other),
        final(store).workspaces == old(store).workspaces,
        final(store).recent_workspaces == old(store).recent_workspaces,
{
    let ghost start = *store;
    if rules.len() == 0 {
        drop_id(&mut store.error_rules, workspace_id);
        assert(views(rules@) =~= Seq::<RuleV>::empty());
    } else {
        put(&mut store.error_rules, workspace_id, copy_rules(rules));
    }
    assert forall|other: Text| other != workspace_id@ implies #[trigger] rules_of(*store, other)
        == rules_of(start, other) by {
        assert(held(store.error_rules@, other) == held(start.error_rules@, other));
    }
}

// ── What is kept ──────────────────────────────────────────────────────────

proof fn without_value_filter(list: Seq<EntryV>, value: Text)
    ensures
        without_value(list, value) == list.filter(|x: EntryV| x.value != value),
    decreases list.len(),
{
    reveal(Seq::filter);
    if list.len() > 0 {
        without_value_filter(list.drop_last(), value);
    }
}

proof fn without_workspace_filter(list: Seq<WorkspaceV>, id: Text)
    ensures
        without_workspace(list, id) == list.filter(|x: WorkspaceV| x.customer_id != id),
    decreases list.len(),
{
    reveal(Seq::filter);
    if list.len() > 0 {
        without_workspace_filter(list.drop_last(), id);
    }
}

/// Behind the value recorded last stand the others in the order they had,
/// and five are kept, so that the oldest fall off.
pub proof fn the_others_keep_their_order(list: Seq<EntryV>, e: EntryV, k: int)
    ensures
        ({
            let others = list.filter(|x: EntryV| x.value != e.value);
            let now = remembered(list, e);
            &&& others.len() < 5 ==> now.len() == others.len() + 1
            &&& others.len() >= 5 ==> now.len() == 5
            &&& now[0] == e
            &&& 0 <= k < others.len() && k < 4 ==> now[k + 1] == others[k]
        }),
{
    without_value_filter(list, e.value);
}

/// Behind the workspace opened last stand the others in the order they had,
/// and five are kept; forgetting one keeps the rest as they stand.
pub proof fn other_workspaces_keep_their_order(list: Seq<WorkspaceV>, w: WorkspaceV, k: int)
    ensures
        ({
            let others = list.filter(|x: WorkspaceV| x.customer_id != w.customer_id);
            let now = reopened(list, w);
            &&& others.len() < 5 ==> now.len() == others.len() + 1
            &&& others.len() >= 5 ==> now.len() == 5
            &&& now[0] == w
            &&& 0 <= k < others.len() && k < 4 ==> now[k + 1] == others[k]
            &&& without_workspace(list, w.customer_id) == others
        }),
{
    without_workspace_filter(list, w.customer_id);
}

/// What a store holds under an id is what stands with the first entry of
/// that id, and nothing where there is none.
pub proof fn the_first_of_an_id_is_held<T>(list: Seq<(String, T)>, id: Text, i: int)
    requires
        0 <= i <= list.len(),
        forall|j: int| 0 <= j < i ==> (#[trigger] list[j]).0@ != id,
    ensures
        i < list.len() && list[i].0@ == id ==> held(list, id) == Some(list[i].1),
        i == list.len() ==> held(list, id) is None,
    decreases i,
{
    if i > 0 {
        let rest = list.drop_first();
        assert(list[0].0@ != id);
        assert forall|j: int| 0 <= j < i - 1 implies (#[trigger] rest[j]).0@ != id by {
            assert(rest[j] == list[j + 1]);
        }
        the_first_of_an_id_is_held(rest, id, i - 1);
    }
}

} // verus!
