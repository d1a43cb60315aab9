//! What the list of recurring exceptions shows.

use crate::clock::{format_time, shown_time};
use crate::exceptions::{gap_words, human_gap, is_regular, Group, GroupV};
use crate::text::{cat2, cat3, cat4, chars_of, decimal, digits, opt_text, piece, views, Text};
use vstd::prelude::*;

verus! {

/// Ids this long are shown whole.
pub const WHOLE_ID: usize = 18;

/// Characters kept of a longer one, at either end.
pub const ID_HEAD: usize = 8;

pub const ID_TAIL: usize = 6;

/// Both ends of a text that is too long, since the tail is what tells two
/// apart at a glance.
pub open spec fn both_ends(s: Text, whole: int, head: int, tail: int) -> Text {
    if s.len() <= whole {
        s
    } else {
        s.take(head) + "…"@ + s.skip(s.len() - tail)
    }
}

pub(crate) fn keep_ends(value: &str, whole: usize, head: usize, tail: usize) -> (r: String)
    requires
        head <= whole,
        tail <= whole,
    ensures
        r@ == both_ends(value@, whole as int, head as int, tail as int),
{
    let chars = chars_of(value);
    let n: usize = chars.len();
    if n <= whole {
        return value.to_owned();
    }
    let front = piece(&chars, 0, head);
    let back = piece(&chars, n - tail, n);
    assert(value@.subrange(0, head as int) =~= value@.take(head as int));
    assert(value@.subrange(n - tail, n as int) =~= value@.skip(n - tail));
    cat3(front.as_str(), "…", back.as_str())
}

/// A correlation id, short enough for a chip.
pub fn shorten(value: &str) -> (r: String)
    ensures
        r@ == both_ends(value@, WHOLE_ID as int, ID_HEAD as int, ID_TAIL as int),
{
    keep_ends(value, WHOLE_ID, ID_HEAD, ID_TAIL)
}

/// A shortened id is never longer than one shown whole.
pub proof fn shortened_ids_fit(s: Text)
    ensures
        both_ends(s, WHOLE_ID as int, ID_HEAD as int, ID_TAIL as int).len() <= WHOLE_ID,
{
    reveal_strlit("…");
}

/// Whether a group comes back on a fixed interval.
pub fn regular(g: &Group) -> (r: bool)
    ensures
        r == is_regular(g@),
{
    match &g.cadence {
        Some(c) => c.regular,
        None => false,
    }
}

/// How many groups come back on a fixed interval.
pub open spec fn regular_count(groups: Seq<GroupV>) -> nat
    decreases groups.len(),
{
    if groups.len() == 0 {
        0
    } else {
        regular_count(groups.drop_last()) + if is_regular(groups.last()) {
            1nat
        } else {
            0nat
        }
    }
}

pub fn count_regular(groups: &Vec<Group>) -> (r: usize)
    ensures
        r == regular_count(views(groups@)),
        r <= groups@.len(),
{
    let ghost all = views(groups@);
    let mut n: usize = 0;
    let mut i: usize = 0;
    let total: usize = groups.len();
    assert(all.take(0) =~= Seq::empty());
    while i < total
        invariant
            i <= total,
            total == groups@.len(),
            all == views(groups@),
            n == regular_count(all.take(i as int)),
            n <= i,
        decreases total - i,
    {
        assert(all.take(i + 1).drop_last() =~= all.take(i as int));
        assert(all.take(i + 1).last() == groups@[i as int]@);
        if regular(&groups[i]) {
            n = n + 1;
        }
        i = i + 1;
    }
    assert(all.take(i as int) =~= all);
    n
}

/// When a group was seen first and last; empty when either is unknown.
pub open spec fn window_of(g: GroupV) -> Text {
    match (g.first, g.last) {
        (Some(a), Some(b)) => shown_time(a) + " → "@ + shown_time(b),
        _ => Seq::empty(),
    }
}

pub fn window_text(g: &Group) -> (r: String)
    ensures
        r@ == window_of(g@),
{
    match (g.first, g.last) {
        (Some(a), Some(b)) => {
            let from = format_time(a);
            let to = format_time(b);
            cat3(from.as_str(), " → ", to.as_str())
        },
        _ => {
            let none: String = String::new();
            assert(none@ =~= Seq::empty());
            none
        },
    }
}

/// How often a group comes back, when it does so on a fixed interval.
pub open spec fn interval_of(g: GroupV) -> Option<Text> {
    match g.cadence {
        Some(c) => if c.regular {
            Some("every ~"@ + gap_words(c.median_half_ms as int))
        } else {
            None
        },
        None => None,
    }
}

pub fn interval_text(g: &Group) -> (r: Option<String>)
    ensures
        opt_text(r) == interval_of(g@),
{
    match &g.cadence {
        Some(c) => if c.regular {
            let gap = human_gap(c.median_half_ms);
            Some(cat2("every ~", gap.as_str()))
        } else {
            None
        },
        None => None,
    }
}

/// What to say of a group of which only a sample is stored.
pub open spec fn sampling_of(g: GroupV) -> Option<Text> {
    if g.count > g.events {
        Some(
            digits(g.count as nat) + " occurrences behind "@ + digits(g.events as nat)
                + " stored rows — Application Insights sampling is on for this app."@,
        )
    } else {
        None
    }
}

pub fn sampling_note(g: &Group) -> (r: Option<String>)
    ensures
        opt_text(r) == sampling_of(g@),
{
    if g.sampled() {
        let count = decimal(g.count as u128);
        let events = decimal(g.events as u128);
        Some(
            cat4(
                count.as_str(),
                " occurrences behind ",
                events.as_str(),
                " stored rows — Application Insights sampling is on for this app.",
            ),
        )
    } else {
        None
    }
}

/// What the list shows in place of groups, if anything.
#[derive(Debug, PartialEq)]
pub enum Panel {
    /// The workspace has no exceptions table, which is another thing than
    /// having one with nothing in it.
    NoTable,
    Loading,
    Failed(String),
    Shown,
}

pub fn panel(has_table: bool, loading: bool, error: Option<String>) -> (r: Panel)
    ensures
        r == if !has_table {
            Panel::NoTable
        } else if loading {
            Panel::Loading
        } else {
            match error {
                Some(e) => Panel::Failed(e),
                None => Panel::Shown,
            }
        },
{
    if !has_table {
        Panel::NoTable
    } else if loading {
        Panel::Loading
    } else {
        match error {
            Some(e) => Panel::Failed(e),
            None => Panel::Shown,
        }
    }
}

/// A text that is too long keeps both of its ends around an ellipsis, and
/// one that is not is shown whole.
pub proof fn both_ends_are_kept(s: Text, whole: int, head: int, tail: int)
    requires
        0 <= head <= whole,
        0 <= tail <= whole,
    ensures
        s.len() <= whole ==> both_ends(s, whole, head, tail) == s,
        s.len() > whole ==> {
            let r = both_ends(s, whole, head, tail);
            &&& r.len() == head + 1 + tail
            &&& r[head] == '…'
            &&& forall|i: int| 0 <= i < head ==> (#[trigger] r[i]) == s[i]
            &&& forall|i: int|
                head < i < r.len() ==> (#[trigger] r[i]) == s[s.len() - r.len() + i]
        },
{
    reveal_strlit("…");
}

/// The regular groups are counted, and no other.
pub proof fn regular_groups_are_counted(groups: Seq<GroupV>)
    ensures
        regular_count(groups) == groups.filter(
            |g: GroupV| g.cadence is Some && (g.cadence->0).regular,
        ).len(),
    decreases groups.len(),
{
    reveal(Seq::filter);
    if groups.len() > 0 {
        regular_groups_are_counted(groups.drop_last());
    }
}

/// A window goes from the first time to the last, and is told only where
/// both are known; an interval only of a group that is regular; and sampling
/// only where more happened than is stored.
pub proof fn groups_are_told_as_far_as_known(g: GroupV, a: i64, b: i64)
    ensures
        g.first == Some(a) && g.last == Some(b) ==> window_of(g) == shown_time(a) + " → "@
            + shown_time(b),
        g.first is None || g.last is None ==> window_of(g).len() == 0,
        interval_of(g) is Some <==> g.cadence is Some && (g.cadence->0).regular,
        sampling_of(g) is Some <==> g.events < g.count,
        interval_of(g) matches Some(t) ==> t == "every ~"@ + gap_words(
            (g.cadence->0).median_half_ms as int,
        ),
{
}

} // verus!
