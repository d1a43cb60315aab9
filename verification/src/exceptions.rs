//! Recurring exceptions, and what they usually mean.
//!
//! A one-off exception is noise. The same exception firing on a steady
//! cadence will keep failing until someone changes something. Counts come
//! from the sampling multiplier rather than from stored rows, and cadence is
//! measured from the timestamps: an average cannot tell a timer from a burst.

use crate::clock::{parse_time, time_of};
use crate::json::{Json, JsonV, NumberV};
use crate::order::{
    arrange, arranged, arranged_multiset, arranged_views, filter_counts, order, order_is_stable,
    precedes, Rank, RankV,
};
use crate::schema::SHARE_ONE;
use crate::text::{
    cat2, cat3, cat5, contains, decimal, digits, holds, listed, lowercase, lowered, same, stands_at,
    views, Text,
};
use vstd::prelude::*;

verus! {

/// Groups pulled back before the list stops being readable.
pub const MAX_GROUPS: usize = 100;

/// Timestamps sampled per group for the cadence test.
pub const MAX_TIMES: usize = 200;

/// Default floor for "recurring".
pub const DEFAULT_MIN_COUNT: u64 = 3;

/// The table that exceptions are written to.
pub const TABLE: &'static str = "AppExceptions";

/// The column that the correlation ids on a group come from.
pub const CORRELATION_FIELD: &'static str = "OperationId";

/// Shortest gap that can be a retry timer, in half milliseconds. Anything
/// faster is a hot loop or one bad moment.
pub const MIN_RETRY_HALF_MS: u128 = 10_000;

// ── Cadence ───────────────────────────────────────────────────────────────

/// How regularly a group fires.
#[derive(Clone, Copy, Debug, PartialEq, Eq, Structural)]
pub struct Cadence {
    /// Typical gap between occurrences, in half milliseconds.
    pub median_half_ms: u128,
    /// Spread of the gaps relative to the median, in units of one part in
    /// [`SHARE_ONE`]. Near none means a timer.
    pub spread: u128,
    /// Regular enough to be something retrying.
    pub regular: bool,
}

pub open spec fn number_rank(n: int) -> RankV {
    RankV { first: n, second: 0, text: Seq::empty() }
}

/// Numbers in ascending order.
pub open spec fn ascending(s: Seq<int>) -> Seq<int> {
    arranged(s, s.map_values(|n: int| number_rank(n)))
}

/// Twice the median, which is whole where the numbers are; none of no
/// numbers.
pub open spec fn twice_median(s: Seq<int>) -> int {
    let v = ascending(s);
    let mid = (s.len() / 2) as int;
    if s.len() == 0 {
        0
    } else if s.len() % 2 == 0 {
        v[mid - 1] + v[mid]
    } else {
        2 * v[mid]
    }
}

/// The gaps between neighbours.
pub open spec fn gaps_of(s: Seq<int>) -> Seq<int> {
    Seq::new(
        if s.len() == 0 {
            0
        } else {
            (s.len() - 1) as nat
        },
        |i: int| s[i + 1] - s[i],
    )
}

pub open spec fn distance(a: int, b: int) -> int {
    if a >= b {
        a - b
    } else {
        b - a
    }
}

/// How far the gaps lie from the median, in half milliseconds.
pub open spec fn deviations(gaps: Seq<int>, median2: int) -> Seq<int> {
    gaps.map_values(|g: int| distance(2 * g, median2))
}

pub open spec fn cadence_of(times: Seq<int>) -> Option<Cadence> {
    let gaps = gaps_of(ascending(times));
    let m = twice_median(gaps);
    let d = twice_median(deviations(gaps, m));
    if times.len() < 4 || m <= 0 {
        None
    } else {
        Some(
            Cadence {
                median_half_ms: m as u128,
                spread: ((d * SHARE_ONE) / (2 * m)) as u128,
                regular: 2 * d < m && m >= MIN_RETRY_HALF_MS,
            },
        )
    }
}

pub open spec fn wide(v: Seq<i128>) -> Seq<int> {
    v.map_values(|x: i128| x as int)
}

pub open spec fn whole(v: Seq<i64>) -> Seq<int> {
    v.map_values(|x: i64| x as int)
}

fn sort_numbers(v: Vec<i128>) -> (r: Vec<i128>)
    ensures
        wide(r@) == ascending(wide(v@)),
        forall|i: int| 0 <= i < r@.len() ==> v@.contains(#[trigger] r@[i]),
        forall|i: int, j: int| 0 <= i <= j < r@.len() ==> r@[i] <= r@[j],
        r@.len() == v@.len(),
{
    let ghost nv = wide(v@);
    let mut ranks: Vec<Rank> = Vec::new();
    let mut i: usize = 0;
    while i < v.len()
        invariant
            i <= v@.len(),
            nv == wide(v@),
            ranks@.len() == i,
            forall|k: int| 0 <= k < i ==> (#[trigger] ranks@[k])@ == number_rank(nv[k]),
        decreases v@.len() - i,
    {
        let rank = Rank { first: v[i], second: 0, text: String::new() };
        assert(rank@.text =~= Seq::empty());
        ranks.push(rank);
        i = i + 1;
    }
    assert(views(ranks@) =~= nv.map_values(|n: int| number_rank(n)));
    let ghost src = v@;
    let ghost rv = views(ranks@);
    let r = arrange(v, &ranks);
    proof {
        order_is_stable(rv);
        crate::order::arranged_keeps(src, rv);
        let o = crate::order::order(rv);
        assert(wide(r@) =~= arranged(nv, rv)) by {
            assert forall|k: int| 0 <= k < o.len() implies (#[trigger] wide(r@)[k]) == nv[o[k]] by {
                assert(0 <= o[k] < src.len());
            }
        }
        assert forall|i: int| 0 <= i < r@.len() implies src.contains(#[trigger] r@[i]) by {
            assert(r@.contains(r@[i]));
        }
        assert forall|i: int, j: int| 0 <= i <= j < r@.len() implies r@[i] <= r@[j] by {
            if i < j {
                assert(crate::order::precedes(rv, o[i], o[j]));
                assert(0 <= o[i] < src.len() && 0 <= o[j] < src.len());
                assert(rv[o[i]].first == r@[i] && rv[o[j]].first == r@[j]);
            }
        }
    }
    r
}

/// Twice the median of numbers that are not negative.
fn doubled_median(v: Vec<i128>, Ghost(limit): Ghost<int>) -> (r: i128)
    requires
        0 <= limit <= 0x10_0000_0000_0000_0000_0000,
        forall|i: int| 0 <= i < v@.len() ==> 0 <= #[trigger] v@[i] <= limit,
    ensures
        r == twice_median(wide(v@)),
        0 <= r <= 2 * limit,
{
    let n: usize = v.len();
    let ghost nv = wide(v@);
    assert(nv.len() == n);
    if n == 0 {
        return 0;
    }
    let ghost src = v@;
    let sorted = sort_numbers(v);
    let mid: usize = n / 2;
    proof {
        assert forall|i: int| 0 <= i < sorted@.len() implies 0 <= #[trigger] sorted@[i]
            <= limit && ascending(nv)[i] == sorted@[i] by {
            assert(src.contains(sorted@[i]));
            let k = choose|k: int| 0 <= k < src.len() && src[k] == sorted@[i];
            assert(0 <= src[k]);
            assert(wide(sorted@)[i] == sorted@[i]);
        }
    }
    if n % 2 == 0 {
        sorted[mid - 1] + sorted[mid]
    } else {
        2 * sorted[mid]
    }
}

/// How regularly a set of occurrences fires. Spread is the median absolute
/// deviation of the gaps over the median gap: a couple of outliers cannot
/// wreck it. A timer lands near none, and a tight burst, though even, is
/// faster than any timer.
pub fn cadence(times: &Vec<i64>) -> (r: Option<Cadence>)
    ensures
        r == cadence_of(whole(times@)),
{
    let ghost tv = whole(times@);
    assert(tv.len() == times@.len());
    if times.len() < 4 {
        return None;
    }
    let mut copy: Vec<i128> = Vec::new();
    let mut i: usize = 0;
    while i < times.len()
        invariant
            i <= times@.len(),
            tv == whole(times@),
            copy@.len() == i,
            forall|k: int| 0 <= k < i ==> #[trigger] copy@[k] == tv[k],
            forall|k: int| 0 <= k < i ==> i64::MIN <= #[trigger] copy@[k] <= i64::MAX,
        decreases times@.len() - i,
    {
        copy.push(times[i] as i128);
        i = i + 1;
    }
    assert(wide(copy@) =~= tv);
    let ghost src = copy@;
    let sorted = sort_numbers(copy);
    let ghost sv = wide(sorted@);
    proof {
        assert forall|k: int| 0 <= k < sorted@.len() implies i64::MIN <= #[trigger] sorted@[k]
            <= i64::MAX by {
            assert(src.contains(sorted@[k]));
            let m = choose|m: int| 0 <= m < src.len() && src[m] == sorted@[k];
            assert(i64::MIN <= src[m] <= i64::MAX);
        }
    }
    let mut gaps: Vec<i128> = Vec::new();
    let mut g: usize = 0;
    while g < sorted.len() - 1
        invariant
            sorted@.len() >= 4,
            g <= sorted@.len() - 1,
            sv == wide(sorted@),
            forall|k: int|
                0 <= k < sorted@.len() ==> i64::MIN <= #[trigger] sorted@[k] <= i64::MAX,
            forall|a: int, b: int| 0 <= a <= b < sorted@.len() ==> sorted@[a] <= sorted@[b],
            gaps@.len() == g,
            forall|k: int| 0 <= k < g ==> #[trigger] gaps@[k] == sv[k + 1] - sv[k],
            forall|k: int| 0 <= k < g ==> 0 <= #[trigger] gaps@[k] <= 0x1_0000_0000_0000_0000,
        decreases sorted@.len() - 1 - g,
    {
        assert(sorted@[g as int] <= sorted@[g + 1]);
        gaps.push(sorted[g + 1] - sorted[g]);
        g = g + 1;
    }
    let ghost gv = gaps_of(sv);
    assert(wide(gaps@) =~= gv);
    let mut again: Vec<i128> = Vec::new();
    let mut c: usize = 0;
    while c < gaps.len()
        invariant
            c <= gaps@.len(),
            again@ == gaps@.take(c as int),
        decreases gaps@.len() - c,
    {
        again.push(gaps[c]);
        c = c + 1;
        assert(again@ =~= gaps@.take(c as int));
    }
    assert(again@ =~= gaps@);
    let m: i128 = doubled_median(again, Ghost(0x1_0000_0000_0000_0000));
    if m <= 0 {
        return None;
    }
    let mut off: Vec<i128> = Vec::new();
    let mut k: usize = 0;
    while k < gaps.len()
        invariant
            k <= gaps@.len(),
            gv == wide(gaps@),
            0 < m <= 0x20_0000_0000_0000_0000,
            forall|x: int|
                0 <= x < gaps@.len() ==> 0 <= #[trigger] gaps@[x] <= 0x1_0000_0000_0000_0000,
            off@.len() == k,
            forall|x: int| 0 <= x < k ==> #[trigger] off@[x] == distance(2 * gv[x], m as int),
            forall|x: int| 0 <= x < k ==> 0 <= #[trigger] off@[x] <= 0x20_0000_0000_0000_0000,
        decreases gaps@.len() - k,
    {
        assert(gv[k as int] == gaps@[k as int]);
        let twice: i128 = 2 * gaps[k];
        let d: i128 = if twice >= m {
            twice - m
        } else {
            m - twice
        };
        off.push(d);
        k = k + 1;
    }
    assert(wide(off@) =~= deviations(gv, m as int));
    let d: i128 = doubled_median(off, Ghost(0x20_0000_0000_0000_0000));
    let scaled: u128 = (d as u128) * (SHARE_ONE as u128);
    let spread: u128 = scaled / (2 * (m as u128));
    Some(
        Cadence {
            median_half_ms: m as u128,
            spread,
            regular: 2 * d < m && m as u128 >= MIN_RETRY_HALF_MS,
        },
    )
}

/// Something regular is never a burst: its gaps are at least those of a
/// timer, and half of them lie within a quarter of the median.
pub proof fn regular_means_slow_and_even(times: Seq<int>)
    ensures
        cadence_of(times) matches Some(c) ==> (c.regular ==> twice_median(
            gaps_of(ascending(times)),
        ) >= MIN_RETRY_HALF_MS && 2 * twice_median(
            deviations(gaps_of(ascending(times)), twice_median(gaps_of(ascending(times)))),
        ) < twice_median(gaps_of(ascending(times)))),
        times.len() < 4 ==> cadence_of(times) is None,
{
}

// ── Saying a gap ──────────────────────────────────────────────────────────

/// Whole seconds, halves upwards, held to what an `i64` holds.
pub open spec fn rounded_seconds(half_ms: int) -> int {
    let s = (half_ms + 1000) / 2000;
    if s > i64::MAX {
        i64::MAX as int
    } else {
        s
    }
}

/// A gap as someone would say it: in seconds up to ninety of them, then in
/// minutes, then in hours.
pub open spec fn gap_words(half_ms: int) -> Text {
    let s = rounded_seconds(half_ms);
    if s <= 90 {
        digits(s as nat) + "s"@
    } else if s < 3600 {
        if s % 60 == 0 {
            digits((s / 60) as nat) + "m"@
        } else {
            digits((s / 60) as nat) + "m "@ + digits((s % 60) as nat) + "s"@
        }
    } else {
        let m = (s % 3600) / 60;
        if m == 0 {
            digits((s / 3600) as nat) + "h"@
        } else {
            digits((s / 3600) as nat) + "h "@ + digits(m as nat) + "m"@
        }
    }
}

/// "90s", "2m 30s", "1h 5m": the gap as someone would say it.
pub fn human_gap(half_ms: u128) -> (r: String)
    ensures
        r@ == gap_words(half_ms as int),
{
    let exact: u128 = half_ms / 2000 + if half_ms % 2000 >= 1000 {
        1u128
    } else {
        0u128
    };
    let s: u128 = if exact > i64::MAX as u128 {
        i64::MAX as u128
    } else {
        exact
    };
    if s <= 90 {
        cat2(decimal(s).as_str(), "s")
    } else if s < 3600 {
        if s % 60 == 0 {
            cat2(decimal(s / 60).as_str(), "m")
        } else {
            let head = cat2(decimal(s / 60).as_str(), "m ");
            cat3(head.as_str(), decimal(s % 60).as_str(), "s")
        }
    } else {
        let m: u128 = (s % 3600) / 60;
        if m == 0 {
            cat2(decimal(s / 3600).as_str(), "h")
        } else {
            let head = cat2(decimal(s / 3600).as_str(), "h ");
            cat3(head.as_str(), decimal(m).as_str(), "m")
        }
    }
}

// ── Groups ────────────────────────────────────────────────────────────────

#[derive(Clone, Copy, Debug, PartialEq, Eq, Structural)]
pub enum HintKind {
    /// A known signature with a known cause.
    Cause,
    /// Evidence about how it is firing.
    Cadence,
    /// Evidence that several symptoms are one problem.
    Shared,
}

/// Why a group is worth looking at.
#[derive(Debug, PartialEq)]
pub struct Hint {
    pub kind: HintKind,
    pub text: String,
}

#[verifier::ext_equal]
pub ghost struct HintV {
    pub kind: HintKind,
    pub text: Text,
}

impl View for Hint {
    type V = HintV;

    open spec fn view(&self) -> HintV {
        HintV { kind: self.kind, text: self.text@ }
    }
}

#[derive(Debug, PartialEq)]
pub struct Group {
    pub exception_type: String,
    pub outer_message: String,
    /// Estimated true occurrences, sampling accounted for.
    pub count: u64,
    /// Rows stored. Lower than `count` when sampling is on.
    pub events: u64,
    /// Epoch milliseconds.
    pub first: Option<i64>,
    pub last: Option<i64>,
    pub cadence: Option<Cadence>,
    /// The apps it was seen under.
    pub roles: Vec<String>,
    /// The operations it was seen under.
    pub operations: Vec<String>,
    /// Correlation ids, so that a group can be traced.
    pub correlation_ids: Vec<String>,
    pub hints: Vec<Hint>,
}

#[verifier::ext_equal]
pub ghost struct GroupV {
    pub exception_type: Text,
    pub outer_message: Text,
    pub count: int,
    pub events: int,
    pub first: Option<i64>,
    pub last: Option<i64>,
    pub cadence: Option<Cadence>,
    pub roles: Seq<Text>,
    pub operations: Seq<Text>,
    pub correlation_ids: Seq<Text>,
    pub hints: Seq<HintV>,
}

impl View for Group {
    type V = GroupV;

    open spec fn view(&self) -> GroupV {
        GroupV {
            exception_type: self.exception_type@,
            outer_message: self.outer_message@,
            count: self.count as int,
            events: self.events as int,
            first: self.first,
            last: self.last,
            cadence: self.cadence,
            roles: views(self.roles@),
            operations: views(self.operations@),
            correlation_ids: views(self.correlation_ids@),
            hints: views(self.hints@),
        }
    }
}

impl Group {
    /// Stable across refreshes, so that an expanded row stays expanded.
    pub fn id(&self) -> (r: String)
        ensures
            r@ == self@.exception_type + "\u{1}"@ + self@.outer_message,
    {
        cat3(self.exception_type.as_str(), "\u{1}", self.outer_message.as_str())
    }

    /// Sampling means that the stored rows understate the problem.
    pub fn sampled(&self) -> (r: bool)
        ensures
            r == (self@.count > self@.events),
    {
        self.count > self.events
    }
}

pub open spec fn hint_if(b: bool, kind: HintKind, text: Text) -> Seq<HintV> {
    if b {
        seq![HintV { kind, text }]
    } else {
        Seq::empty()
    }
}

pub open spec fn larger(a: nat, b: nat) -> nat {
    if a >= b {
        a
    } else {
        b
    }
}

pub open spec fn is_regular(g: GroupV) -> bool {
    g.cadence matches Some(c) && c.regular
}

pub open spec fn median_of(g: GroupV) -> int {
    match g.cadence {
        Some(c) => c.median_half_ms as int,
        None => 0,
    }
}

/// Where a failure was seen, in words.
pub open spec fn shared_where(g: GroupV) -> Text {
    if g.roles.len() > 1 {
        digits(g.roles.len()) + " apps"@
    } else {
        digits(g.operations.len()) + " operations"@
    }
}

/// What is worth saying of a group. The signatures are narrow: a hint that is
/// only mostly right sends someone to the wrong place with confidence.
pub open spec fn hints_of(g: GroupV) -> Seq<HintV> {
    let message = lowered(g.outer_message);
    let names = larger(g.roles.len(), g.operations.len());
    hint_if(
        holds(message, "unable to start"@),
        HintKind::Cause,
        "A trigger or listener failed to initialise — usually a bad connection string or config that never resolved. Nothing on this path is running."@,
    ) + hint_if(
        g.exception_type == "System.ArgumentException"@ && holds(message, "dbconnectionoptions"@),
        HintKind::Cause,
        "Malformed or empty SQL connection string — almost always an unresolved Key Vault reference rather than a bad literal. Check the app's Key Vault references below."@,
    ) + hint_if(
        names > 1,
        HintKind::Shared,
        "Same failure across "@ + shared_where(g)
            + " — one shared cause (a single app setting or connection), not "@ + digits(names)
            + " separate bugs."@,
    ) + hint_if(
        is_regular(g),
        HintKind::Cadence,
        "Fires every ~"@ + gap_words(median_of(g))
            + " on a fixed interval — something is retrying on a timer. That is a stuck listener or a dropped connection, not a transient."@,
    )
}

fn hint_when(out: &mut Vec<Hint>, b: bool, kind: HintKind, text: String)
    ensures
        views(final(out)@) == views(old(out)@) + hint_if(b, kind, text@),
{
    let ghost before = views(out@);
    if b {
        let h = Hint { kind, text };
        let ghost hv = h@;
        out.push(h);
        assert(views(out@) =~= before + seq![hv]);
    } else {
        assert(views(out@) =~= before + Seq::<HintV>::empty());
    }
}

/// Turns a group into the things worth saying about it.
pub fn classify(group: &Group) -> (r: Vec<Hint>)
    ensures
        views(r@) == hints_of(group@),
{
    let message = lowercase(group.outer_message.as_str());
    let mut hints: Vec<Hint> = Vec::new();
    let roles: usize = group.roles.len();
    let operations: usize = group.operations.len();
    assert(group@.roles.len() == roles && group@.operations.len() == operations);
    hint_when(
        &mut hints,
        contains(message.as_str(), "unable to start"),
        HintKind::Cause,
        "A trigger or listener failed to initialise — usually a bad connection string or config that never resolved. Nothing on this path is running.".to_owned(),
    );
    assert(views(hints@) =~= hint_if(
        holds(lowered(group@.outer_message), "unable to start"@),
        HintKind::Cause,
        "A trigger or listener failed to initialise — usually a bad connection string or config that never resolved. Nothing on this path is running."@,
    ));
    hint_when(
        &mut hints,
        same(group.exception_type.as_str(), "System.ArgumentException") && contains(
            message.as_str(),
            "dbconnectionoptions",
        ),
        HintKind::Cause,
        "Malformed or empty SQL connection string — almost always an unresolved Key Vault reference rather than a bad literal. Check the app's Key Vault references below.".to_owned(),
    );
    let names: usize = if roles >= operations {
        roles
    } else {
        operations
    };
    let place: String = if roles > 1 {
        cat2(decimal(roles as u128).as_str(), " apps")
    } else {
        cat2(decimal(operations as u128).as_str(), " operations")
    };
    hint_when(
        &mut hints,
        names > 1,
        HintKind::Shared,
        cat5(
            "Same failure across ",
            place.as_str(),
            " — one shared cause (a single app setting or connection), not ",
            decimal(names as u128).as_str(),
            " separate bugs.",
        ),
    );
    let (regular, median) = match group.cadence {
        Some(c) => (c.regular, c.median_half_ms),
        None => (false, 0u128),
    };
    hint_when(
        &mut hints,
        regular,
        HintKind::Cadence,
        cat3(
            "Fires every ~",
            human_gap(median).as_str(),
            " on a fixed interval — something is retrying on a timer. That is a stuck listener or a dropped connection, not a transient.",
        ),
    );
    hints
}

// ── Query and rows ────────────────────────────────────────────────────────

/// Whether the workspace has an exceptions table at all: nothing failing and
/// nothing recorded are different answers.
pub fn has_table_named(names: &Vec<String>) -> (r: bool)
    ensures
        r == views(names@).contains(TABLE@),
{
    listed(names, TABLE)
}

pub open spec fn query_text(min_count: int) -> Text {
    "AppExceptions\n| summarize Count = sum(ItemCount), Events = count(),\n            First = min(TimeGenerated), Last = max(TimeGenerated),\n            Times = make_list(TimeGenerated, 200),\n            Roles = make_set(AppRoleName, 8),\n            Operations = make_set(OperationName, 8),\n            Correlations = make_set(OperationId, 5)\n    by ExceptionType, OuterMessage\n| where Count > "@
        + digits(min_count as nat) + "\n| order by Count desc\n| take 100"@
}

/// Groups that occurred more often than a floor, by estimated occurrences.
pub fn query(min_count: u64) -> (r: String)
    ensures
        r@ == query_text(min_count as int),
{
    cat3(
        "AppExceptions\n| summarize Count = sum(ItemCount), Events = count(),\n            First = min(TimeGenerated), Last = max(TimeGenerated),\n            Times = make_list(TimeGenerated, 200),\n            Roles = make_set(AppRoleName, 8),\n            Operations = make_set(OperationName, 8),\n            Correlations = make_set(OperationId, 5)\n    by ExceptionType, OuterMessage\n| where Count > ",
        decimal(min_count as u128).as_str(),
        "\n| order by Count desc\n| take 100",
    )
}

pub open spec fn text_or_empty(t: Option<Text>) -> Text {
    match t {
        Some(s) => s,
        None => Seq::empty(),
    }
}

pub open spec fn natural_at(row: JsonV, name: Text) -> int {
    match row.get(name) {
        Some(v) => match v.as_natural() {
            Some(n) => n as int,
            None => 0,
        },
        None => 0,
    }
}

pub open spec fn time_at(row: JsonV, name: Text) -> Option<i64> {
    match row.get(name) {
        Some(v) => time_of(v),
        None => None,
    }
}

/// The texts of an array that are not empty, in order.
pub open spec fn texts_in(items: Seq<JsonV>) -> Seq<Text>
    decreases items.len(),
{
    if items.len() == 0 {
        Seq::empty()
    } else {
        let before = texts_in(items.drop_last());
        match items.last().as_text() {
            Some(t) => if t.len() > 0 {
                before.push(t)
            } else {
                before
            },
            None => before,
        }
    }
}

/// The instants of an array, in order.
pub open spec fn times_in(items: Seq<JsonV>) -> Seq<int>
    decreases items.len(),
{
    if items.len() == 0 {
        Seq::empty()
    } else {
        let before = times_in(items.drop_last());
        match time_of(items.last()) {
            Some(t) => before.push(t as int),
            None => before,
        }
    }
}

pub open spec fn list_at(row: JsonV, name: Text) -> Seq<Text> {
    match row.array_at(name) {
        Some(a) => texts_in(a),
        None => Seq::empty(),
    }
}

/// A group without its hints.
pub open spec fn plain_group(row: JsonV) -> GroupV {
    GroupV {
        exception_type: text_or_empty(row.text_at("ExceptionType"@)),
        outer_message: text_or_empty(row.text_at("OuterMessage"@)),
        count: natural_at(row, "Count"@),
        events: natural_at(row, "Events"@),
        first: time_at(row, "First"@),
        last: time_at(row, "Last"@),
        cadence: cadence_of(
            match row.array_at("Times"@) {
                Some(a) => times_in(a),
                None => Seq::empty(),
            },
        ),
        roles: list_at(row, "Roles"@),
        operations: list_at(row, "Operations"@),
        correlation_ids: list_at(row, "Correlations"@),
        hints: Seq::empty(),
    }
}

pub open spec fn group_of(row: JsonV) -> GroupV {
    GroupV { hints: hints_of(plain_group(row)), ..plain_group(row) }
}

fn text_in(row: &Json, name: &str) -> (r: String)
    ensures
        r@ == text_or_empty(row@.text_at(name@)),
{
    match row.text_at(name) {
        Some(s) => s.clone(),
        None => {
            let none: String = String::new();
            assert(none@ =~= Seq::empty());
            none
        },
    }
}

fn natural_in(row: &Json, name: &str) -> (r: u64)
    ensures
        r == natural_at(row@, name@),
{
    match row.get(name) {
        Some(v) => match v.as_natural() {
            Some(n) => n,
            None => 0,
        },
        None => 0,
    }
}

fn time_in(row: &Json, name: &str) -> (r: Option<i64>)
    ensures
        r == time_at(row@, name@),
{
    match row.get(name) {
        Some(v) => parse_time(v),
        None => None,
    }
}

fn list_in(row: &Json, name: &str) -> (r: Vec<String>)
    ensures
        views(r@) == list_at(row@, name@),
{
    let mut out: Vec<String> = Vec::new();
    assert(views(out@) =~= Seq::<Text>::empty());
    if let Some(a) = row.array_at(name) {
        let ghost av = views(a@);
        let mut i: usize = 0;
        assert(av.take(0) =~= Seq::empty());
        while i < a.len()
            invariant
                i <= a@.len(),
                av == views(a@),
                views(out@) == texts_in(av.take(i as int)),
            decreases a@.len() - i,
        {
            assert(av.take(i + 1).drop_last() =~= av.take(i as int));
            assert(av.take(i + 1).last() == a@[i as int]@);
            if let Some(t) = a[i].as_text() {
                if !t.as_str().is_empty() {
                    let ghost before = views(out@);
                    out.push(t.clone());
                    assert(views(out@) =~= before.push(t@));
                }
            }
            i = i + 1;
        }
        assert(av.take(i as int) =~= av);
    }
    out
}

fn instants_in(row: &Json) -> (r: Vec<i64>)
    ensures
        whole(r@) == match row@.array_at("Times"@) {
            Some(a) => times_in(a),
            None => Seq::empty(),
        },
{
    let mut out: Vec<i64> = Vec::new();
    assert(whole(out@) =~= Seq::<int>::empty());
    if let Some(a) = row.array_at("Times") {
        let ghost av = views(a@);
        let mut i: usize = 0;
        assert(av.take(0) =~= Seq::empty());
        while i < a.len()
            invariant
                i <= a@.len(),
                av == views(a@),
                whole(out@) == times_in(av.take(i as int)),
            decreases a@.len() - i,
        {
            assert(av.take(i + 1).drop_last() =~= av.take(i as int));
            assert(av.take(i + 1).last() == a@[i as int]@);
            if let Some(t) = parse_time(&a[i]) {
                let ghost before = whole(out@);
                out.push(t);
                assert(whole(out@) =~= before.push(t as int));
            }
            i = i + 1;
        }
        assert(av.take(i as int) =~= av);
    }
    out
}

/// The group that a row describes.
pub fn build(row: &Json) -> (r: Group)
    ensures
        r@ == group_of(row@),
        r.exception_type@ == text_or_empty(row@.text_at("ExceptionType"@)),
        r.outer_message@ == text_or_empty(row@.text_at("OuterMessage"@)),
        r.count == natural_at(row@, "Count"@),
        r.events == natural_at(row@, "Events"@),
        r.first == time_at(row@, "First"@),
        r.last == time_at(row@, "Last"@),
        views(r.roles@) == list_at(row@, "Roles"@),
        views(r.operations@) == list_at(row@, "Operations"@),
        views(r.correlation_ids@) == list_at(row@, "Correlations"@),
{
    let times = instants_in(row);
    let mut group = Group {
        exception_type: text_in(row, "ExceptionType"),
        outer_message: text_in(row, "OuterMessage"),
        count: natural_in(row, "Count"),
        events: natural_in(row, "Events"),
        first: time_in(row, "First"),
        last: time_in(row, "Last"),
        cadence: cadence(&times),
        roles: list_in(row, "Roles"),
        operations: list_in(row, "Operations"),
        correlation_ids: list_in(row, "Correlations"),
        hints: Vec::new(),
    };
    assert(group@ =~= plain_group(row@));
    let hints = classify(&group);
    group.hints = hints;
    group
}

/// What fires on a fixed cadence stands first, then what fires most.
pub open spec fn group_rank(g: GroupV) -> RankV {
    RankV {
        first: if is_regular(g) {
            0
        } else {
            1
        },
        second: -g.count,
        text: Seq::empty(),
    }
}

/// The recurring groups that an answer holds.
pub open spec fn recurring_groups(rows: Seq<JsonV>) -> Seq<GroupV> {
    let all = rows.map_values(|r: JsonV| group_of(r));
    arranged(all, all.map_values(|g: GroupV| group_rank(g)))
}

/// Reads the answer to [`query`]: anything on a fixed cadence floats up
/// regardless of volume.
pub fn recurring(rows: &Vec<Json>) -> (r: Vec<Group>)
    ensures
        views(r@) == recurring_groups(views(rows@)),
{
    let ghost rv = views(rows@);
    let ghost all = rv.map_values(|r: JsonV| group_of(r));
    let mut groups: Vec<Group> = Vec::new();
    let mut ranks: Vec<Rank> = Vec::new();
    let mut i: usize = 0;
    while i < rows.len()
        invariant
            i <= rows@.len(),
            rv == views(rows@),
            all == rv.map_values(|r: JsonV| group_of(r)),
            groups@.len() == i,
            ranks@.len() == i,
            forall|k: int| 0 <= k < i ==> (#[trigger] groups@[k])@ == all[k],
            forall|k: int| 0 <= k < i ==> (#[trigger] ranks@[k])@ == group_rank(all[k]),
        decreases rows@.len() - i,
    {
        let g = build(&rows[i]);
        let first: i128 = match g.cadence {
            Some(c) => if c.regular {
                0
            } else {
                1
            },
            None => 1,
        };
        let rank = Rank { first, second: -(g.count as i128), text: String::new() };
        assert(rank@.text =~= Seq::empty());
        assert(g@ == all[i as int]);
        ranks.push(rank);
        groups.push(g);
        i = i + 1;
    }
    assert(views(groups@) =~= all);
    assert(views(ranks@) =~= all.map_values(|g: GroupV| group_rank(g)));
    proof {
        arranged_views(groups@, views(ranks@));
    }
    arrange(groups, &ranks)
}

// ── What holds of the numbers ─────────────────────────────────────────────

/// Sorting keeps every number as often as it occurs, smallest first.
pub proof fn ascending_is_sorted(s: Seq<int>)
    ensures
        ascending(s).len() == s.len(),
        ascending(s).to_multiset() == s.to_multiset(),
        forall|i: int, j: int|
            0 <= i <= j < s.len() ==> #[trigger] ascending(s)[i] <= #[trigger] ascending(s)[j],
{
    let ranks = s.map_values(|n: int| number_rank(n));
    order_is_stable(ranks);
    arranged_multiset(s, ranks);
    let o = order(ranks);
    assert forall|i: int, j: int| 0 <= i <= j < s.len() implies #[trigger] ascending(s)[i]
        <= #[trigger] ascending(s)[j] by {
        if i < j {
            assert(precedes(ranks, o[i], o[j]));
            assert(0 <= o[i] < s.len() && 0 <= o[j] < s.len());
        }
    }
}

/// There is only one way to sort numbers.
proof fn ascending_is(s: Seq<int>, v: Seq<int>)
    requires
        v.to_multiset() == s.to_multiset(),
        forall|i: int, j: int| 0 <= i <= j < v.len() ==> v[i] <= v[j],
    ensures
        ascending(s) == v,
        v.len() == s.len(),
{
    broadcast use vstd::seq_lib::group_to_multiset_ensures;

    ascending_is_sorted(s);
    let leq = |a: int, b: int| a <= b;
    let a = ascending(s);
    assert(vstd::relations::sorted_by(a, leq));
    assert(vstd::relations::sorted_by(v, leq));
    assert(vstd::relations::total_ordering(leq));
    vstd::seq_lib::lemma_sorted_unique(a, v, leq);
    assert(v.to_multiset().len() == v.len());
    assert(s.to_multiset().len() == s.len());
}

proof fn count_low(v: Seq<int>, m: int, k: int)
    requires
        0 <= k <= v.len(),
        forall|i: int| 0 <= i < k ==> 2 * #[trigger] v[i] <= m,
    ensures
        v.filter(|x: int| 2 * x <= m).len() >= k,
    decreases v.len(),
{
    reveal(Seq::filter);
    if v.len() > 0 {
        let short = v.drop_last();
        let n = if k < v.len() {
            k
        } else {
            k - 1
        };
        assert forall|i: int| 0 <= i < n implies 2 * #[trigger] short[i] <= m by {
            assert(short[i] == v[i]);
        }
        count_low(short, m, n);
        assert(v[v.len() - 1] == v.last());
    }
}

proof fn count_high(v: Seq<int>, m: int, k: int)
    requires
        0 <= k <= v.len(),
        forall|i: int| k <= i < v.len() ==> 2 * #[trigger] v[i] >= m,
    ensures
        v.filter(|x: int| 2 * x >= m).len() >= v.len() - k,
    decreases v.len(),
{
    reveal(Seq::filter);
    if k < v.len() {
        let short = v.drop_last();
        assert forall|i: int| k <= i < short.len() implies 2 * #[trigger] short[i] >= m by {
            assert(short[i] == v[i]);
        }
        count_high(short, m, k);
        assert(v[v.len() - 1] == v.last());
    }
}

/// At least half of the numbers are at most the median, and at least half
/// are at least it, however they stand.
pub proof fn the_median_halves_the_numbers(s: Seq<int>)
    ensures
        2 * s.filter(|x: int| 2 * x <= twice_median(s)).len() >= s.len(),
        2 * s.filter(|x: int| 2 * x >= twice_median(s)).len() >= s.len(),
{
    ascending_is_sorted(s);
    let v = ascending(s);
    let n = s.len() as int;
    let m = twice_median(s);
    let low = |x: int| 2 * x <= m;
    let high = |x: int| 2 * x >= m;
    if n > 0 {
        let a = (n - 1) / 2;
        let b = n / 2;
        assert(m == v[a] + v[b]);
        assert forall|i: int| 0 <= i < a + 1 implies 2 * #[trigger] v[i] <= m by {
            assert(v[i] <= v[a] && v[a] <= v[b]);
        }
        assert forall|i: int| b <= i < v.len() implies 2 * #[trigger] v[i] >= m by {
            assert(v[b] <= v[i] && v[a] <= v[b]);
        }
        count_low(v, m, a + 1);
        count_high(v, m, b);
        filter_counts(s, low);
        filter_counts(v, low);
        filter_counts(s, high);
        filter_counts(v, high);
    }
}

/// Twice the median is the sum of the two numbers in the middle once they
/// stand in ascending order; of an odd count the two are one.
pub proof fn the_median_is_of_the_middle_two(s: Seq<int>, v: Seq<int>)
    requires
        s.len() > 0,
        v.to_multiset() == s.to_multiset(),
        forall|i: int, j: int| 0 <= i <= j < v.len() ==> v[i] <= v[j],
    ensures
        v.len() == s.len(),
        twice_median(s) == v[(s.len() - 1) / 2] + v[s.len() as int / 2],
        s.len() % 2 == 1 ==> twice_median(s) == 2 * v[s.len() as int / 2],
{
    ascending_is(s, v);
}

/// Neither the median nor the cadence depends on the order of the numbers.
pub proof fn the_median_has_no_order(s: Seq<int>, t: Seq<int>)
    requires
        s.to_multiset() == t.to_multiset(),
    ensures
        twice_median(s) == twice_median(t),
        s.len() >= 4 ==> cadence_of(s) == cadence_of(t),
{
    broadcast use vstd::seq_lib::group_to_multiset_ensures;

    ascending_is_sorted(s);
    ascending_is_sorted(t);
    ascending_is(t, ascending(s));
    assert(s.to_multiset().len() == s.len());
    assert(t.to_multiset().len() == t.len());
}

proof fn middle_within(s: Seq<int>, low: int, high: int)
    requires
        s.len() > 0,
        forall|i: int| 0 <= i < s.len() ==> low <= #[trigger] s[i] <= high,
    ensures
        2 * low <= twice_median(s) <= 2 * high,
{
    ascending_is_sorted(s);
    let ranks = s.map_values(|n: int| number_rank(n));
    order_is_stable(ranks);
    let o = order(ranks);
    let n = s.len() as int;
    assert forall|i: int| 0 <= i < n implies low <= #[trigger] ascending(s)[i] <= high by {
        assert(0 <= o[i] < s.len());
        assert(ascending(s)[i] == s[o[i]]);
    }
    assert(low <= ascending(s)[(n - 1) / 2] <= high);
    assert(low <= ascending(s)[n / 2] <= high);
}

/// The cadence of some instants, told over the instants in ascending order
/// and the gaps between neighbours. Of fewer than four instants there is
/// none, nor where the median gap is none. It is regular when the gaps
/// typically lie within a quarter of the median gap, and the median gap is
/// five seconds or more.
pub proof fn cadence_is_of_the_gaps(times: Seq<int>, v: Seq<int>, gaps: Seq<int>, off: Seq<int>)
    requires
        forall|i: int| 0 <= i < times.len() ==> i64::MIN <= #[trigger] times[i] <= i64::MAX,
        v.to_multiset() == times.to_multiset(),
        forall|i: int, j: int| 0 <= i <= j < v.len() ==> v[i] <= v[j],
        gaps.len() == v.len() - 1,
        forall|i: int| 0 <= i < gaps.len() ==> #[trigger] gaps[i] == v[i + 1] - v[i],
        off.len() == gaps.len(),
        forall|i: int|
            0 <= i < off.len() ==> #[trigger] off[i] == if 2 * gaps[i] >= twice_median(gaps) {
                2 * gaps[i] - twice_median(gaps)
            } else {
                twice_median(gaps) - 2 * gaps[i]
            },
    ensures
        cadence_of(times) is Some <==> times.len() >= 4 && twice_median(gaps) > 0,
        cadence_of(times) matches Some(c) ==> {
            &&& c.median_half_ms == twice_median(gaps)
            &&& c.regular <==> twice_median(off) * 2 < twice_median(gaps) && twice_median(gaps)
                >= 10_000
            &&& c.spread * (2 * twice_median(gaps)) <= twice_median(off) * SHARE_ONE
            &&& twice_median(off) * SHARE_ONE < (c.spread + 1) * (2 * twice_median(gaps))
        },
{
    ascending_is(times, v);
    assert(gaps =~= gaps_of(v));
    assert(off =~= deviations(gaps, twice_median(gaps)));
    if times.len() >= 4 {
        let ranks = times.map_values(|n: int| number_rank(n));
        order_is_stable(ranks);
        let o = order(ranks);
        assert forall|i: int| 0 <= i < v.len() implies i64::MIN <= #[trigger] v[i]
            <= i64::MAX by {
            assert(0 <= o[i] < times.len());
            assert(v[i] == times[o[i]]);
        }
        assert forall|i: int| 0 <= i < gaps.len() implies 0 <= #[trigger] gaps[i]
            <= 0x1_0000_0000_0000_0000 by {
            assert(v[i] <= v[i + 1]);
        }
        middle_within(gaps, 0, 0x1_0000_0000_0000_0000);
        let m = twice_median(gaps);
        assert forall|i: int| 0 <= i < off.len() implies 0 <= #[trigger] off[i]
            <= 0x20_0000_0000_0000_0000 by {
            assert(0 <= gaps[i] <= 0x1_0000_0000_0000_0000);
        }
        middle_within(off, 0, 0x20_0000_0000_0000_0000);
        if m > 0 {
            let d = twice_median(off) * SHARE_ONE;
            let q = d / (2 * m);
            vstd::arithmetic::div_mod::lemma_fundamental_div_mod(d, 2 * m);
            vstd::arithmetic::div_mod::lemma_mod_bound(d, 2 * m);
            assert(d == q * (2 * m) + d % (2 * m)) by (nonlinear_arith)
                requires
                    d == (2 * m) * q + d % (2 * m),
            ;
            assert((q + 1) * (2 * m) == q * (2 * m) + 2 * m) by (nonlinear_arith);
            assert(0 <= q <= d) by (nonlinear_arith)
                requires
                    d >= 0,
                    m > 0,
                    q == d / (2 * m),
            ;
            assert(d <= u128::MAX);
            assert(cadence_of(times)->0.spread == q);
        }
    }
}

/// A gap is said in whole seconds up to ninety of them, then in minutes and
/// what is left in seconds, then in hours and what is left in whole minutes.
pub proof fn gaps_are_said_in_two_units(half_ms: int, s: int, big: int, small: int)
    requires
        half_ms >= 0,
        2000 * s - 1000 <= half_ms < 2000 * s + 1000,
        s <= i64::MAX,
        big >= 0,
    ensures
        s <= 90 ==> gap_words(half_ms) == digits(s as nat) + "s"@,
        90 < s < 3600 && s == 60 * big + small && 0 < small < 60 ==> gap_words(half_ms) == digits(
            big as nat,
        ) + "m "@ + digits(small as nat) + "s"@,
        90 < s < 3600 && s == 60 * big ==> gap_words(half_ms) == digits(big as nat) + "m"@,
        3600 <= s && 3600 * big + 60 * small <= s < 3600 * big + 60 * small + 60 && 0 < small < 60
            ==> gap_words(half_ms) == digits(big as nat) + "h "@ + digits(small as nat) + "m"@,
        3600 <= s && 3600 * big <= s < 3600 * big + 60 ==> gap_words(half_ms) == digits(big as nat)
            + "h"@,
{
}

// ── What holds of the groups ──────────────────────────────────────────────

proof fn texts_are_filtered(items: Seq<JsonV>)
    ensures
        texts_in(items) == items.filter(
            |v: JsonV| v is Text && v->Text_0.len() > 0,
        ).map_values(|v: JsonV| v->Text_0),
    decreases items.len(),
{
    reveal(Seq::filter);
    let p = |v: JsonV| v is Text && v->Text_0.len() > 0;
    let f = |v: JsonV| v->Text_0;
    if items.len() > 0 {
        texts_are_filtered(items.drop_last());
        let part = items.drop_last().filter(p);
        if p(items.last()) {
            assert(part.push(items.last()).map_values(f) =~= part.map_values(f).push(
                f(items.last()),
            ));
        }
    } else {
        assert(items.filter(p).map_values(f) =~= Seq::empty());
    }
}

proof fn times_are_filtered(items: Seq<JsonV>)
    ensures
        times_in(items) == items.filter(|v: JsonV| time_of(v) is Some).map_values(
            |v: JsonV| time_of(v)->0 as int,
        ),
    decreases items.len(),
{
    reveal(Seq::filter);
    let p = |v: JsonV| time_of(v) is Some;
    let f = |v: JsonV| time_of(v)->0 as int;
    if items.len() > 0 {
        times_are_filtered(items.drop_last());
        let part = items.drop_last().filter(p);
        if p(items.last()) {
            assert(part.push(items.last()).map_values(f) =~= part.map_values(f).push(
                f(items.last()),
            ));
        }
    } else {
        assert(items.filter(p).map_values(f) =~= Seq::empty());
    }
}

/// The texts and the counts of a group are the cells of those names; a cell
/// that is missing or of another kind counts as empty, or as none.
pub proof fn groups_hold_their_own_cells(row: JsonV, t: Text, n: NumberV, k: u64)
    ensures
        row.get("ExceptionType"@) == Some(JsonV::Text(t)) ==> group_of(row).exception_type == t,
        row.get("OuterMessage"@) == Some(JsonV::Text(t)) ==> group_of(row).outer_message == t,
        row.get("Count"@) == Some(JsonV::Number(n)) && n.natural == Some(k) ==> group_of(row).count
            == k,
        row.get("Events"@) == Some(JsonV::Number(n)) && n.natural == Some(k) ==> group_of(
            row,
        ).events == k,
        !(row.get("ExceptionType"@) matches Some(JsonV::Text(_))) ==> group_of(
            row,
        ).exception_type.len() == 0,
        !(row.get("OuterMessage"@) matches Some(JsonV::Text(_))) ==> group_of(
            row,
        ).outer_message.len() == 0,
        !(row.get("Count"@) matches Some(JsonV::Number(_))) ==> group_of(row).count == 0,
        !(row.get("Events"@) matches Some(JsonV::Number(_))) ==> group_of(row).events == 0,
        row.get("First"@) is None ==> group_of(row).first is None,
        row.get("Last"@) is None ==> group_of(row).last is None,
        row.get("First"@) matches Some(v) ==> group_of(row).first == time_of(v),
        row.get("Last"@) matches Some(v) ==> group_of(row).last == time_of(v),
{
}

/// The lists of a group are the texts, those not empty, of the arrays of
/// those names, and its cadence is that of the instants under `Times`.
pub proof fn groups_hold_their_own_lists(row: JsonV, a: Seq<JsonV>)
    ensures
        ({
            let told = a.filter(|v: JsonV| v is Text && v->Text_0.len() > 0).map_values(
                |v: JsonV| v->Text_0,
            );
            let at = a.filter(|v: JsonV| time_of(v) is Some).map_values(
                |v: JsonV| time_of(v)->0 as int,
            );
            let g = group_of(row);
            &&& row.get("Roles"@) == Some(JsonV::Array(a)) ==> g.roles == told
            &&& row.get("Operations"@) == Some(JsonV::Array(a)) ==> g.operations == told
            &&& row.get("Correlations"@) == Some(JsonV::Array(a)) ==> g.correlation_ids == told
            &&& row.get("Times"@) == Some(JsonV::Array(a)) ==> g.cadence == cadence_of(at)
        }),
        !(row.get("Roles"@) matches Some(JsonV::Array(_))) ==> group_of(row).roles.len() == 0,
        !(row.get("Operations"@) matches Some(JsonV::Array(_))) ==> group_of(row).operations.len()
            == 0,
        !(row.get("Correlations"@) matches Some(JsonV::Array(_))) ==> group_of(
            row,
        ).correlation_ids.len() == 0,
        !(row.get("Times"@) matches Some(JsonV::Array(_))) ==> group_of(row).cadence is None,
{
    texts_are_filtered(a);
    times_are_filtered(a);
}

/// What is said of a group: a cause for each signature that its message has,
/// that it is shared as soon as several apps or several operations show it,
/// and its interval when it is regular, in that order.
pub proof fn hints_follow_the_evidence(row: JsonV)
    ensures
        ({
            let g = group_of(row);
            let starts = holds(lowered(g.outer_message), "unable to start"@);
            let connects = g.exception_type == "System.ArgumentException"@ && holds(
                lowered(g.outer_message),
                "dbconnectionoptions"@,
            );
            let causes: int = (if starts {
                1int
            } else {
                0
            }) + (if connects {
                1int
            } else {
                0
            });
            let shared = g.roles.len() > 1 || g.operations.len() > 1;
            let regular = g.cadence is Some && g.cadence->0.regular;
            &&& g.hints.len() == causes + (if shared {
                1int
            } else {
                0
            }) + (if regular {
                1int
            } else {
                0
            })
            &&& forall|i: int|
                0 <= i < g.hints.len() ==> ((#[trigger] g.hints[i]).kind is Cause <==> i < causes)
            &&& regular ==> g.hints.last().kind is Cadence
            &&& shared ==> g.hints[causes].kind is Shared
            &&& shared && g.roles.len() > 1 && g.roles.len() >= g.operations.len()
                ==> g.hints[causes].text == "Same failure across "@ + (digits(g.roles.len())
                + " apps"@) + " — one shared cause (a single app setting or connection), not "@
                + digits(g.roles.len()) + " separate bugs."@
            &&& shared && g.roles.len() > 1 && g.roles.len() < g.operations.len()
                ==> g.hints[causes].text == "Same failure across "@ + (digits(g.roles.len())
                + " apps"@) + " — one shared cause (a single app setting or connection), not "@
                + digits(g.operations.len()) + " separate bugs."@
            &&& shared && g.roles.len() <= 1 ==> g.hints[causes].text == "Same failure across "@ + (
            digits(g.operations.len()) + " operations"@)
                + " — one shared cause (a single app setting or connection), not "@ + digits(
                g.operations.len(),
            ) + " separate bugs."@
            &&& regular ==> g.hints.last().text == "Fires every ~"@ + gap_words(
                g.cadence->0.median_half_ms as int,
            )
                + " on a fixed interval — something is retrying on a timer. That is a stuck listener or a dropped connection, not a transient."@
        }),
{
}

/// Every row gives its own group and no other, what fires on a fixed cadence
/// stands before what does not, and of two alike the one that fires more
/// often stands first.
pub proof fn regular_groups_float_up(rows: Seq<JsonV>)
    ensures
        recurring_groups(rows).len() == rows.len(),
        recurring_groups(rows).to_multiset() == rows.map_values(
            |r: JsonV| group_of(r),
        ).to_multiset(),
        forall|i: int, j: int|
            #![trigger recurring_groups(rows)[i], recurring_groups(rows)[j]]
            0 <= i < j < rows.len() ==> {
                let a = recurring_groups(rows)[i];
                let b = recurring_groups(rows)[j];
                let a_regular = a.cadence is Some && a.cadence->0.regular;
                let b_regular = b.cadence is Some && b.cadence->0.regular;
                &&& b_regular ==> a_regular
                &&& a_regular == b_regular ==> a.count >= b.count
            },
{
    let all = rows.map_values(|r: JsonV| group_of(r));
    let ranks = all.map_values(|g: GroupV| group_rank(g));
    order_is_stable(ranks);
    arranged_multiset(all, ranks);
    let o = order(ranks);
    let got = recurring_groups(rows);
    assert forall|i: int, j: int|
        #![trigger got[i], got[j]]
        0 <= i < j < rows.len() implies {
        let a = got[i];
        let b = got[j];
        let a_regular = a.cadence is Some && a.cadence->0.regular;
        let b_regular = b.cadence is Some && b.cadence->0.regular;
        &&& b_regular ==> a_regular
        &&& a_regular == b_regular ==> a.count >= b.count
    } by {
        assert(precedes(ranks, o[i], o[j]));
        assert(0 <= o[i] < all.len() && 0 <= o[j] < all.len());
        assert(got[i] == all[o[i]] && got[j] == all[o[j]]);
        crate::text::text_less_irreflexive(Seq::empty());
    }
}

proof fn stands_in(head: Text, tail: Text, p: Text, i: int)
    requires
        0 <= i,
        i + p.len() <= head.len(),
        forall|k: int| 0 <= k < p.len() ==> #[trigger] p[k] == head[i + k],
    ensures
        holds(head + tail, p),
{
    let s = head + tail;
    assert(s.subrange(i, i + p.len()) =~= p);
    assert(stands_at(s, p, i));
}

/// The query asks for each thing that is read off a group under the name
/// that it is read by: occurrences by the sampling weight, rows as stored,
/// the first and the last time, and who and what was seen.
pub proof fn groups_are_asked_for_by_name(min_count: int)
    ensures
        holds(query_text(min_count), "Count = sum(ItemCount)"@),
        holds(query_text(min_count), "Events = count()"@),
        holds(query_text(min_count), "First = min(TimeGenerated)"@),
        holds(query_text(min_count), "Last = max(TimeGenerated)"@),
        holds(query_text(min_count), "Times = make_list(TimeGenerated, 200)"@),
        holds(query_text(min_count), "Roles = make_set(AppRoleName, 8)"@),
        holds(query_text(min_count), "Operations = make_set(OperationName, 8)"@),
        holds(query_text(min_count), "Correlations = make_set(OperationId, 5)"@),
        holds(query_text(min_count), "by ExceptionType, OuterMessage"@),
{
    let head = "AppExceptions\n| summarize Count = sum(ItemCount), Events = count(),\n            First = min(TimeGenerated), Last = max(TimeGenerated),\n            Times = make_list(TimeGenerated, 200),\n            Roles = make_set(AppRoleName, 8),\n            Operations = make_set(OperationName, 8),\n            Correlations = make_set(OperationId, 5)\n    by ExceptionType, OuterMessage\n| where Count > "@;
    let tail = digits(min_count as nat) + "\n| order by Count desc\n| take 100"@;
    assert(query_text(min_count) =~= head + tail);
    reveal_strlit("AppExceptions\n| summarize Count = sum(ItemCount), Events = count(),\n            First = min(TimeGenerated), Last = max(TimeGenerated),\n            Times = make_list(TimeGenerated, 200),\n            Roles = make_set(AppRoleName, 8),\n            Operations = make_set(OperationName, 8),\n            Correlations = make_set(OperationId, 5)\n    by ExceptionType, OuterMessage\n| where Count > ");
    reveal_strlit("Count = sum(ItemCount)");
    reveal_strlit("Events = count()");
    reveal_strlit("First = min(TimeGenerated)");
    reveal_strlit("Last = max(TimeGenerated)");
    reveal_strlit("Times = make_list(TimeGenerated, 200)");
    reveal_strlit("Roles = make_set(AppRoleName, 8)");
    reveal_strlit("Operations = make_set(OperationName, 8)");
    reveal_strlit("Correlations = make_set(OperationId, 5)");
    reveal_strlit("by ExceptionType, OuterMessage");
    stands_in(head, tail, "Count = sum(ItemCount)"@, 26);
    stands_in(head, tail, "Events = count()"@, 50);
    stands_in(head, tail, "First = min(TimeGenerated)"@, 80);
    stands_in(head, tail, "Last = max(TimeGenerated)"@, 108);
    stands_in(head, tail, "Times = make_list(TimeGenerated, 200)"@, 147);
    stands_in(head, tail, "Roles = make_set(AppRoleName, 8)"@, 198);
    stands_in(head, tail, "Operations = make_set(OperationName, 8)"@, 244);
    stands_in(head, tail, "Correlations = make_set(OperationId, 5)"@, 297);
    stands_in(head, tail, "by ExceptionType, OuterMessage"@, 341);
}

/// Only groups above the floor come back, the most frequent first, a hundred
/// at most. Gives the text before the floor.
pub proof fn only_groups_above_the_floor_come_back(min_count: int) -> (before: Text)
    ensures
        query_text(min_count) == before + digits(min_count as nat)
            + "\n| order by Count desc\n| take 100"@,
        holds(before, "| where Count > "@),
{
    let head = "AppExceptions\n| summarize Count = sum(ItemCount), Events = count(),\n            First = min(TimeGenerated), Last = max(TimeGenerated),\n            Times = make_list(TimeGenerated, 200),\n            Roles = make_set(AppRoleName, 8),\n            Operations = make_set(OperationName, 8),\n            Correlations = make_set(OperationId, 5)\n    by ExceptionType, OuterMessage\n| where Count > "@;
    reveal_strlit("AppExceptions\n| summarize Count = sum(ItemCount), Events = count(),\n            First = min(TimeGenerated), Last = max(TimeGenerated),\n            Times = make_list(TimeGenerated, 200),\n            Roles = make_set(AppRoleName, 8),\n            Operations = make_set(OperationName, 8),\n            Correlations = make_set(OperationId, 5)\n    by ExceptionType, OuterMessage\n| where Count > ");
    reveal_strlit("| where Count > ");
    stands_in(head, Seq::empty(), "| where Count > "@, 372);
    assert(head + Seq::<char>::empty() =~= head);
    head
}

/// Groups that are alike in both keep the order of their rows. Gives the
/// rows of two that are.
pub proof fn equal_groups_keep_the_order_of_rows(rows: Seq<JsonV>, i: int, j: int) -> (at: (
    int,
    int,
))
    requires
        0 <= i < j < recurring_groups(rows).len(),
        recurring_groups(rows)[i].count == recurring_groups(rows)[j].count,
        (recurring_groups(rows)[i].cadence is Some && (recurring_groups(
            rows,
        )[i].cadence->0).regular) == (recurring_groups(rows)[j].cadence is Some && (
        recurring_groups(rows)[j].cadence->0).regular),
    ensures
        0 <= at.0 < at.1 < rows.len(),
        recurring_groups(rows)[i] == group_of(rows[at.0]),
        recurring_groups(rows)[j] == group_of(rows[at.1]),
{
    let all = rows.map_values(|r: JsonV| group_of(r));
    let ranks = all.map_values(|g: GroupV| group_rank(g));
    order_is_stable(ranks);
    let o = order(ranks);
    assert(precedes(ranks, o[i], o[j]));
    assert(0 <= o[i] < all.len() && 0 <= o[j] < all.len());
    crate::text::text_less_irreflexive(Seq::empty());
    (o[i], o[j])
}

} // verus!
